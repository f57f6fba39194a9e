//! The stateless Tribbler front-end translator: record formats, the
//! follow-log fold, and the server that turns high-level operations into
//! bin storage calls.
//!
//! Post records are stored as `clock ":" time ":" escape(user) ":"
//! escape(message)`; follow-log entries as `("f"|"u") ":" clock ":"
//! escape(whom)`.  Because decimal digits and escaped strings hold no
//! `:`, both encodings parse back exactly
//! ([`parse_trib`], [`parse_follow`]).
use crate::colon::{escape, escape_seq, lemma_escape_no_colon, lemma_escape_round_trip, unescape};
use crate::num::{all_digits, dec_seq, lemma_dec_seq_val, parse_u64, u64_to_dec};
use crate::strutil::{push_char, str_eq};
use crate::bins::{compose_key_spec, BinStore};
use crate::err::TribblerError;
use crate::storage::KeyValue;
use crate::trib::{Trib, TribView};
use vstd::prelude::*;

verus! {

/// The stored form of a post record.
pub open spec fn encode_trib_spec(t: TribView) -> Seq<char> {
    dec_seq(t.clock as nat) + seq![':'] + dec_seq(t.time as nat) + seq![':'] + escape_seq(t.user)
        + seq![':'] + escape_seq(t.message)
}

/// One follow or unfollow action, as read from the follow log.
pub struct FollowEvent {
    /// `true` for follow, `false` for unfollow
    pub follow: bool,
    /// the action clock issued for the entry
    pub clock: u64,
    /// the user acted upon
    pub whom: String,
}

/// The mathematical image of a [`FollowEvent`].
pub struct FollowEventView {
    /// `true` for follow
    pub follow: bool,
    /// the action clock
    pub clock: u64,
    /// the user acted upon
    pub whom: Seq<char>,
}

impl DeepView for FollowEvent {
    type V = FollowEventView;

    open spec fn deep_view(&self) -> FollowEventView {
        FollowEventView { follow: self.follow, clock: self.clock, whom: self.whom@ }
    }
}

/// The stored form of a follow-log entry.
pub open spec fn encode_follow_spec(e: FollowEventView) -> Seq<char> {
    (if e.follow {
        seq!['f']
    } else {
        seq!['u']
    }) + seq![':'] + dec_seq(e.clock as nat) + seq![':'] + escape_seq(e.whom)
}

/// A sequence without `:`.
pub open spec fn colon_free(s: Seq<char>) -> bool {
    forall|i: int| 0 <= i < s.len() ==> s[i] != ':'
}

/// A string of the shape `x ":" y` with `x` colon-free splits only one
/// way.
proof fn lemma_colon_split_unique(x1: Seq<char>, y1: Seq<char>, x2: Seq<char>, y2: Seq<char>)
    requires
        colon_free(x1),
        colon_free(x2),
        x1 + seq![':'] + y1 == x2 + seq![':'] + y2,
    ensures
        x1 == x2,
        y1 == y2,
{
    let s1 = x1 + seq![':'] + y1;
    let s2 = x2 + seq![':'] + y2;
    assert(s1[x1.len() as int] == ':');
    assert(s2[x2.len() as int] == ':');
    if x1.len() < x2.len() {
        assert(s2[x1.len() as int] == x2[x1.len() as int]);
        assert(false);
    }
    if x2.len() < x1.len() {
        assert(s1[x2.len() as int] == x1[x2.len() as int]);
        assert(false);
    }
    assert forall|i: int| 0 <= i < x1.len() implies x1[i] == x2[i] by {
        assert(s1[i] == x1[i]);
        assert(s2[i] == x2[i]);
    }
    assert(x1 =~= x2);
    assert(s1.len() == s2.len());
    assert(y1.len() == y2.len());
    assert forall|i: int| 0 <= i < y1.len() implies y1[i] == y2[i] by {
        assert(s1[x1.len() + 1 + i] == y1[i]);
        assert(s2[x2.len() + 1 + i] == y2[i]);
    }
    assert(y1 =~= y2);
}

/// The split of a string at its first `:`, as a function of the
/// string: the colon-free head and everything after the colon.
pub open spec fn split_colon_spec(s: Seq<char>) -> Option<(Seq<char>, Seq<char>)>
    decreases s.len(),
{
    if s.len() == 0 {
        None
    } else if s[0] == ':' {
        Some((Seq::empty(), s.drop_first()))
    } else {
        match split_colon_spec(s.drop_first()) {
            None => None,
            Some(p) => Some((seq![s[0]] + p.0, p.1)),
        }
    }
}

/// A colon-free string does not split.
proof fn lemma_split_colon_none(s: Seq<char>)
    requires
        colon_free(s),
    ensures
        split_colon_spec(s) is None,
    decreases s.len(),
{
    if s.len() > 0 {
        assert(forall|j: int|
            0 <= j < s.drop_first().len() ==> s.drop_first()[j] == s[j + 1]);
        lemma_split_colon_none(s.drop_first());
    }
}

/// A string whose first `:` stands at `i` splits right there.
proof fn lemma_split_colon_at(s: Seq<char>, i: int)
    requires
        0 <= i < s.len(),
        s[i] == ':',
        forall|j: int| 0 <= j < i ==> s[j] != ':',
    ensures
        split_colon_spec(s) == Some((s.subrange(0, i), s.subrange(i + 1, s.len() as int))),
    decreases i,
{
    if i == 0 {
        assert(s.subrange(0, 0) =~= Seq::<char>::empty());
        assert(s.subrange(1, s.len() as int) =~= s.drop_first());
    } else {
        assert(forall|j: int|
            0 <= j < s.drop_first().len() ==> s.drop_first()[j] == s[j + 1]);
        lemma_split_colon_at(s.drop_first(), i - 1);
        assert(seq![s[0]] + s.drop_first().subrange(0, i - 1) =~= s.subrange(0, i));
        assert(s.drop_first().subrange(i, s.len() - 1) =~= s.subrange(i + 1, s.len() as int));
    }
}

/// Splits a string at its first `:`, computing [`split_colon_spec`].
fn split_first_colon(s: &str) -> (r: Option<(String, String)>)
    ensures
        r matches Some(p) ==> split_colon_spec(s@) == Some((p.0@, p.1@)) && s@ == p.0@ + seq![
            ':',
        ] + p.1@ && colon_free(p.0@),
        r is None ==> split_colon_spec(s@) is None && colon_free(s@),
{
    let n = s.unicode_len();
    let mut i: usize = 0;
    while i < n
        invariant
            n == s@.len(),
            i <= n,
            forall|j: int| 0 <= j < i ==> s@[j] != ':',
        decreases n - i,
    {
        if s.get_char(i) == ':' {
            let head = s.substring_char(0, i);
            let tail = s.substring_char(i + 1, n);
            proof {
                assert(head@ =~= s@.subrange(0, i as int));
                assert(tail@ =~= s@.subrange(i + 1, n as int));
                assert(s@ =~= head@ + seq![':'] + tail@);
                lemma_split_colon_at(s@, i as int);
            }
            return Some((head.to_owned(), tail.to_owned()));
        }
        i = i + 1;
    }
    proof {
        lemma_split_colon_none(s@);
    }
    None
}

/// Writes a post record.
pub fn encode_trib(t: &Trib) -> (r: String)
    ensures
        r@ == encode_trib_spec(t@),
{
    let mut out = u64_to_dec(t.clock);
    push_char(&mut out, ':');
    let time = u64_to_dec(t.time);
    out.append(time.as_str());
    push_char(&mut out, ':');
    let user = escape(t.user.as_str());
    out.append(user.as_str());
    push_char(&mut out, ':');
    let msg = escape(t.message.as_str());
    out.append(msg.as_str());
    proof {
        assert(out@ =~= encode_trib_spec(t@));
    }
    out
}

/// What parsing a post record gives: the four fields split at the
/// first three colons, the clocks read as decimals, the strings
/// unescaped.
pub open spec fn parse_trib_spec(s: Seq<char>) -> Option<TribView> {
    match split_colon_spec(s) {
        None => None,
        Some(p1) => match split_colon_spec(p1.1) {
            None => None,
            Some(p2) => match split_colon_spec(p2.1) {
                None => None,
                Some(p3) => match crate::num::parse_u64_spec(p1.0) {
                    None => None,
                    Some(clock) => match crate::num::parse_u64_spec(p2.0) {
                        None => None,
                        Some(time) => Some(
                            TribView {
                                user: crate::colon::unescape_seq(p3.0),
                                message: crate::colon::unescape_seq(p3.1),
                                time,
                                clock,
                            },
                        ),
                    },
                },
            },
        },
    }
}

/// Reads a post record back, computing [`parse_trib_spec`]; whatever
/// [`encode_trib`] wrote parses to an equal trib.
pub fn parse_trib(s: &str) -> (r: Option<Trib>)
    ensures
        r.deep_view() == parse_trib_spec(s@),
        forall|tv: TribView| s@ == encode_trib_spec(tv) ==> (r matches Some(t) && t@ == tv),
{
    let p1 = match split_first_colon(s) {
        Some(p) => p,
        None => {
            proof {
                assert forall|tv: TribView| s@ == encode_trib_spec(tv) implies false by {
                    assert(s@[dec_seq(tv.clock as nat).len() as int] == ':');
                }
            }
            return None;
        },
    };
    let p2 = match split_first_colon(p1.1.as_str()) {
        Some(p) => p,
        None => {
            proof {
                assert forall|tv: TribView| s@ == encode_trib_spec(tv) implies false by {
                    lemma_trib_fields(tv);
                    lemma_colon_split_unique(
                        p1.0@,
                        p1.1@,
                        dec_seq(tv.clock as nat),
                        dec_seq(tv.time as nat) + seq![':'] + escape_seq(tv.user) + seq![':']
                            + escape_seq(tv.message),
                    );
                    assert(p1.1@[dec_seq(tv.time as nat).len() as int] == ':');
                }
            }
            return None;
        },
    };
    let p3 = match split_first_colon(p2.1.as_str()) {
        Some(p) => p,
        None => {
            proof {
                assert forall|tv: TribView| s@ == encode_trib_spec(tv) implies false by {
                    lemma_trib_fields(tv);
                    lemma_colon_split_unique(
                        p1.0@,
                        p1.1@,
                        dec_seq(tv.clock as nat),
                        dec_seq(tv.time as nat) + seq![':'] + escape_seq(tv.user) + seq![':']
                            + escape_seq(tv.message),
                    );
                    lemma_colon_split_unique(
                        p2.0@,
                        p2.1@,
                        dec_seq(tv.time as nat),
                        escape_seq(tv.user) + seq![':'] + escape_seq(tv.message),
                    );
                    assert(p2.1@[escape_seq(tv.user).len() as int] == ':');
                }
            }
            return None;
        },
    };
    let clock = match parse_u64(p1.0.as_str()) {
        Some(c) => c,
        None => {
            proof {
                assert forall|tv: TribView| s@ == encode_trib_spec(tv) implies false by {
                    lemma_trib_fields(tv);
                    lemma_colon_split_unique(
                        p1.0@,
                        p1.1@,
                        dec_seq(tv.clock as nat),
                        dec_seq(tv.time as nat) + seq![':'] + escape_seq(tv.user) + seq![':']
                            + escape_seq(tv.message),
                    );
                    lemma_dec_seq_val(tv.clock as nat);
                }
            }
            return None;
        },
    };
    let time = match parse_u64(p2.0.as_str()) {
        Some(c) => c,
        None => {
            proof {
                assert forall|tv: TribView| s@ == encode_trib_spec(tv) implies false by {
                    lemma_trib_fields(tv);
                    lemma_colon_split_unique(
                        p1.0@,
                        p1.1@,
                        dec_seq(tv.clock as nat),
                        dec_seq(tv.time as nat) + seq![':'] + escape_seq(tv.user) + seq![':']
                            + escape_seq(tv.message),
                    );
                    lemma_colon_split_unique(
                        p2.0@,
                        p2.1@,
                        dec_seq(tv.time as nat),
                        escape_seq(tv.user) + seq![':'] + escape_seq(tv.message),
                    );
                    lemma_dec_seq_val(tv.time as nat);
                }
            }
            return None;
        },
    };
    let user = unescape(p3.0.as_str());
    let message = unescape(p3.1.as_str());
    let t = Trib { user, message, time, clock };
    proof {
        assert forall|tv: TribView| s@ == encode_trib_spec(tv) implies t@ == tv by {
            lemma_trib_fields(tv);
            lemma_colon_split_unique(
                p1.0@,
                p1.1@,
                dec_seq(tv.clock as nat),
                dec_seq(tv.time as nat) + seq![':'] + escape_seq(tv.user) + seq![':']
                    + escape_seq(tv.message),
            );
            lemma_colon_split_unique(
                p2.0@,
                p2.1@,
                dec_seq(tv.time as nat),
                escape_seq(tv.user) + seq![':'] + escape_seq(tv.message),
            );
            lemma_colon_split_unique(
                p3.0@,
                p3.1@,
                escape_seq(tv.user),
                escape_seq(tv.message),
            );
            lemma_dec_seq_val(tv.clock as nat);
            lemma_dec_seq_val(tv.time as nat);
            lemma_escape_round_trip(tv.user);
            lemma_escape_round_trip(tv.message);
        }
    }
    Some(t)
}

/// The four fields of an encoded post record are colon-free, and the
/// record associates as first-field plus rest.
proof fn lemma_trib_fields(tv: TribView)
    ensures
        all_digits(dec_seq(tv.clock as nat)),
        all_digits(dec_seq(tv.time as nat)),
        colon_free(dec_seq(tv.clock as nat)),
        colon_free(dec_seq(tv.time as nat)),
        colon_free(escape_seq(tv.user)),
        colon_free(escape_seq(tv.message)),
        encode_trib_spec(tv) == dec_seq(tv.clock as nat) + seq![':'] + (dec_seq(tv.time as nat)
            + seq![':'] + escape_seq(tv.user) + seq![':'] + escape_seq(tv.message)),
        dec_seq(tv.time as nat) + seq![':'] + escape_seq(tv.user) + seq![':'] + escape_seq(
            tv.message,
        ) == dec_seq(tv.time as nat) + seq![':'] + (escape_seq(tv.user) + seq![':'] + escape_seq(
            tv.message,
        )),
{
    lemma_dec_seq_val(tv.clock as nat);
    lemma_dec_seq_val(tv.time as nat);
    lemma_escape_no_colon(tv.user);
    lemma_escape_no_colon(tv.message);
    assert(encode_trib_spec(tv) =~= dec_seq(tv.clock as nat) + seq![':'] + (dec_seq(
        tv.time as nat,
    ) + seq![':'] + escape_seq(tv.user) + seq![':'] + escape_seq(tv.message)));
    assert(dec_seq(tv.time as nat) + seq![':'] + escape_seq(tv.user) + seq![':'] + escape_seq(
        tv.message,
    ) =~= dec_seq(tv.time as nat) + seq![':'] + (escape_seq(tv.user) + seq![':'] + escape_seq(
        tv.message,
    )));
}

/// Writes a follow-log entry.
pub fn encode_follow(e: &FollowEvent) -> (r: String)
    ensures
        r@ == encode_follow_spec(e.deep_view()),
{
    let mut out = String::new();
    if e.follow {
        push_char(&mut out, 'f');
    } else {
        push_char(&mut out, 'u');
    }
    push_char(&mut out, ':');
    let clock = u64_to_dec(e.clock);
    out.append(clock.as_str());
    push_char(&mut out, ':');
    let whom = escape(e.whom.as_str());
    out.append(whom.as_str());
    proof {
        assert(out@ =~= encode_follow_spec(e.deep_view()));
    }
    out
}

/// The fields of an encoded follow-log entry, for the split proofs.
proof fn lemma_follow_fields(ev: FollowEventView)
    ensures
        colon_free(
            if ev.follow {
                seq!['f']
            } else {
                seq!['u']
            },
        ),
        all_digits(dec_seq(ev.clock as nat)),
        colon_free(dec_seq(ev.clock as nat)),
        colon_free(escape_seq(ev.whom)),
        encode_follow_spec(ev) == (if ev.follow {
            seq!['f']
        } else {
            seq!['u']
        }) + seq![':'] + (dec_seq(ev.clock as nat) + seq![':'] + escape_seq(ev.whom)),
{
    lemma_dec_seq_val(ev.clock as nat);
    lemma_escape_no_colon(ev.whom);
    assert(encode_follow_spec(ev) =~= (if ev.follow {
        seq!['f']
    } else {
        seq!['u']
    }) + seq![':'] + (dec_seq(ev.clock as nat) + seq![':'] + escape_seq(ev.whom)));
}

/// What parsing a follow-log entry gives: the action letter, the
/// decimal clock, the unescaped target.
pub open spec fn parse_follow_spec(s: Seq<char>) -> Option<FollowEventView> {
    match split_colon_spec(s) {
        None => None,
        Some(p1) => match split_colon_spec(p1.1) {
            None => None,
            Some(p2) => match crate::num::parse_u64_spec(p2.0) {
                None => None,
                Some(clock) => Some(
                    FollowEventView {
                        follow: p1.0 == seq!['f'],
                        clock,
                        whom: crate::colon::unescape_seq(p2.1),
                    },
                ),
            },
        },
    }
}

/// Reads a follow-log entry back, computing [`parse_follow_spec`];
/// whatever [`encode_follow`] wrote parses to an equal event.
pub fn parse_follow(s: &str) -> (r: Option<FollowEvent>)
    ensures
        r.deep_view() == parse_follow_spec(s@),
        forall|ev: FollowEventView| s@ == encode_follow_spec(ev) ==> (r matches Some(e)
            && e.deep_view() == ev),
{
    let p1 = match split_first_colon(s) {
        Some(p) => p,
        None => {
            proof {
                assert forall|ev: FollowEventView| s@ == encode_follow_spec(ev) implies false
                    by {
                    lemma_follow_fields(ev);
                    assert(s@[1] == ':');
                }
            }
            return None;
        },
    };
    let p2 = match split_first_colon(p1.1.as_str()) {
        Some(p) => p,
        None => {
            proof {
                assert forall|ev: FollowEventView| s@ == encode_follow_spec(ev) implies false
                    by {
                    lemma_follow_fields(ev);
                    lemma_colon_split_unique(
                        p1.0@,
                        p1.1@,
                        if ev.follow {
                            seq!['f']
                        } else {
                            seq!['u']
                        },
                        dec_seq(ev.clock as nat) + seq![':'] + escape_seq(ev.whom),
                    );
                    assert(p1.1@[dec_seq(ev.clock as nat).len() as int] == ':');
                }
            }
            return None;
        },
    };
    let is_follow = str_eq(p1.0.as_str(), "f");
    proof {
        reveal_strlit("f");
        assert("f"@ =~= seq!['f']);
    }
    let clock = match parse_u64(p2.0.as_str()) {
        Some(c) => c,
        None => {
            proof {
                assert forall|ev: FollowEventView| s@ == encode_follow_spec(ev) implies false
                    by {
                    lemma_follow_fields(ev);
                    lemma_colon_split_unique(
                        p1.0@,
                        p1.1@,
                        if ev.follow {
                            seq!['f']
                        } else {
                            seq!['u']
                        },
                        dec_seq(ev.clock as nat) + seq![':'] + escape_seq(ev.whom),
                    );
                    lemma_colon_split_unique(
                        p2.0@,
                        p2.1@,
                        dec_seq(ev.clock as nat),
                        escape_seq(ev.whom),
                    );
                    lemma_dec_seq_val(ev.clock as nat);
                }
            }
            return None;
        },
    };
    let whom = unescape(p2.1.as_str());
    let e = FollowEvent { follow: is_follow, clock, whom };
    proof {
        assert forall|ev: FollowEventView| s@ == encode_follow_spec(ev) implies e.deep_view()
            == ev by {
            lemma_follow_fields(ev);
            lemma_colon_split_unique(
                p1.0@,
                p1.1@,
                if ev.follow {
                    seq!['f']
                } else {
                    seq!['u']
                },
                dec_seq(ev.clock as nat) + seq![':'] + escape_seq(ev.whom),
            );
            lemma_colon_split_unique(
                p2.0@,
                p2.1@,
                dec_seq(ev.clock as nat),
                escape_seq(ev.whom),
            );
            lemma_dec_seq_val(ev.clock as nat);
            lemma_escape_round_trip(ev.whom);
            reveal_strlit("f");
            assert("f"@ =~= seq!['f']);
            if ev.follow {
                assert(p1.0@ =~= seq!['f']);
                assert(p1.0@ == "f"@);
            } else {
                assert(p1.0@ =~= seq!['u']);
                assert(p1.0@[0] == 'u' && "f"@[0] == 'f');
                assert(p1.0@ != "f"@);
            }
        }
    }
    Some(e)
}

/// What the follow log says about `whom`: followed exactly when a follow
/// entry stands at the largest clock among entries for `whom` and no
/// unfollow entry shares that clock.  The definition reads the log as a
/// set of entries, so any two logs holding the same entries agree.
pub open spec fn is_followed(log: Seq<FollowEventView>, whom: Seq<char>) -> bool {
    exists|e: FollowEventView|
        #![trigger log.contains(e)]
        log.contains(e) && e.whom == whom && e.follow && (forall|f: FollowEventView|
            #![trigger log.contains(f)]
            log.contains(f) && f.whom == whom ==> (f.clock < e.clock || (f.clock == e.clock
                && f.follow)))
}

/// Folding the follow log is order-independent: two logs holding the
/// same multiset of entries agree on every user.
pub proof fn lemma_fold_order_independent(
    l1: Seq<FollowEventView>,
    l2: Seq<FollowEventView>,
    whom: Seq<char>,
)
    requires
        l1.to_multiset() == l2.to_multiset(),
    ensures
        is_followed(l1, whom) == is_followed(l2, whom),
{
    broadcast use vstd::seq_lib::group_to_multiset_ensures;

    if is_followed(l1, whom) {
        let e = choose|e: FollowEventView|
            #![trigger l1.contains(e)]
            l1.contains(e) && e.whom == whom && e.follow && (forall|f: FollowEventView|
                #![trigger l1.contains(f)]
                l1.contains(f) && f.whom == whom ==> (f.clock < e.clock || (f.clock == e.clock
                    && f.follow)));
        assert(l2.contains(e)) by {
            assert(l1.to_multiset().count(e) > 0);
        }
        assert forall|f: FollowEventView|
            #![trigger l2.contains(f)]
            l2.contains(f) && f.whom == whom implies (f.clock < e.clock || (f.clock == e.clock
            && f.follow)) by {
            assert(l1.contains(f)) by {
                assert(l2.to_multiset().count(f) > 0);
            }
        }
        assert(is_followed(l2, whom));
    }
    if is_followed(l2, whom) {
        let e = choose|e: FollowEventView|
            #![trigger l2.contains(e)]
            l2.contains(e) && e.whom == whom && e.follow && (forall|f: FollowEventView|
                #![trigger l2.contains(f)]
                l2.contains(f) && f.whom == whom ==> (f.clock < e.clock || (f.clock == e.clock
                    && f.follow)));
        assert(l1.contains(e)) by {
            assert(l2.to_multiset().count(e) > 0);
        }
        assert forall|f: FollowEventView|
            #![trigger l1.contains(f)]
            l1.contains(f) && f.whom == whom implies (f.clock < e.clock || (f.clock == e.clock
            && f.follow)) by {
            assert(l2.contains(f)) by {
                assert(l1.to_multiset().count(f) > 0);
            }
        }
        assert(is_followed(l1, whom));
    }
    assert forall|e: FollowEventView| #[trigger] l1.contains(e) == l2.contains(e) by {
        assert(l1.contains(e) <==> l1.to_multiset().count(e) > 0);
        assert(l2.contains(e) <==> l2.to_multiset().count(e) > 0);
    }
}

/// A log whose matching entries top out at clock `bc` says "followed"
/// exactly when a follow entry stands at `bc` and no unfollow entry does.
proof fn lemma_followed_characterization(log: Seq<FollowEventView>, w: Seq<char>, bc: u64)
    requires
        exists|e: FollowEventView|
            #![trigger log.contains(e)]
            log.contains(e) && e.whom == w && e.clock == bc,
        forall|f: FollowEventView|
            #![trigger log.contains(f)]
            log.contains(f) && f.whom == w ==> f.clock <= bc,
    ensures
        is_followed(log, w) == ((exists|e: FollowEventView|
            #![trigger log.contains(e)]
            log.contains(e) && e.whom == w && e.clock == bc && e.follow) && !(exists|
            e: FollowEventView,
        |
            #![trigger log.contains(e)]
            log.contains(e) && e.whom == w && e.clock == bc && !e.follow)),
{
    if is_followed(log, w) {
        let e = choose|e: FollowEventView|
            #![trigger log.contains(e)]
            log.contains(e) && e.whom == w && e.follow && (forall|f: FollowEventView|
                #![trigger log.contains(f)]
                log.contains(f) && f.whom == w ==> (f.clock < e.clock || (f.clock == e.clock
                    && f.follow)));
        let g = choose|g: FollowEventView|
            #![trigger log.contains(g)]
            log.contains(g) && g.whom == w && g.clock == bc;
        assert(e.clock == bc);
        assert(log.contains(e) && e.whom == w && e.clock == bc && e.follow);
        if exists|u: FollowEventView|
            #![trigger log.contains(u)]
            log.contains(u) && u.whom == w && u.clock == bc && !u.follow {
            let u = choose|u: FollowEventView|
                #![trigger log.contains(u)]
                log.contains(u) && u.whom == w && u.clock == bc && !u.follow;
            assert(u.clock < e.clock || (u.clock == e.clock && u.follow));
            assert(false);
        }
    } else {
        if (exists|e: FollowEventView|
            #![trigger log.contains(e)]
            log.contains(e) && e.whom == w && e.clock == bc && e.follow) && !(exists|
            u: FollowEventView,
        |
            #![trigger log.contains(u)]
            log.contains(u) && u.whom == w && u.clock == bc && !u.follow) {
            let e = choose|e: FollowEventView|
                #![trigger log.contains(e)]
                log.contains(e) && e.whom == w && e.clock == bc && e.follow;
            assert forall|f: FollowEventView|
                #![trigger log.contains(f)]
                log.contains(f) && f.whom == w implies (f.clock < e.clock || (f.clock
                == e.clock && f.follow)) by {
                if f.clock == bc && !f.follow {
                    assert(false);
                }
            }
            assert(is_followed(log, w));
            assert(false);
        }
    }
}

/// Scans a follow log and answers whether `whom` is currently followed.
pub fn fold_is_followed(entries: &Vec<FollowEvent>, whom: &str) -> (r: bool)
    ensures
        r == is_followed(entries.deep_view(), whom@),
{
    let ghost dv = entries.deep_view();
    let mut found = false;
    let mut bc: u64 = 0;
    let mut fo = false;
    let mut nu = false;
    let mut i: usize = 0;
    proof {
        assert(dv.subrange(0, 0) =~= Seq::<FollowEventView>::empty());
    }
    while i < entries.len()
        invariant
            entries.deep_view() == dv,
            entries@.len() == dv.len(),
            i <= dv.len(),
            found == exists|e: FollowEventView|
                #![trigger dv.subrange(0, i as int).contains(e)]
                dv.subrange(0, i as int).contains(e) && e.whom == whom@,
            found ==> (exists|e: FollowEventView|
                #![trigger dv.subrange(0, i as int).contains(e)]
                dv.subrange(0, i as int).contains(e) && e.whom == whom@ && e.clock == bc),
            forall|f: FollowEventView|
                #![trigger dv.subrange(0, i as int).contains(f)]
                dv.subrange(0, i as int).contains(f) && f.whom == whom@ ==> f.clock <= bc,
            fo == exists|e: FollowEventView|
                #![trigger dv.subrange(0, i as int).contains(e)]
                dv.subrange(0, i as int).contains(e) && e.whom == whom@ && e.clock == bc
                    && e.follow,
            nu == exists|e: FollowEventView|
                #![trigger dv.subrange(0, i as int).contains(e)]
                dv.subrange(0, i as int).contains(e) && e.whom == whom@ && e.clock == bc
                    && !e.follow,
        decreases dv.len() - i,
    {
        let ghost pfx = dv.subrange(0, i as int);
        let ghost npfx = dv.subrange(0, i + 1);
        proof {
            assert(npfx.drop_last() =~= pfx);
            assert(npfx.last() == dv[i as int]);
            assert(dv[i as int] == entries@[i as int].deep_view());
            assert forall|e: FollowEventView| #[trigger]
                npfx.contains(e) == (pfx.contains(e) || e == dv[i as int]) by {
                if npfx.contains(e) {
                    let x = choose|x: int| 0 <= x < npfx.len() && npfx[x] == e;
                    if x < pfx.len() {
                        assert(pfx[x] == e);
                        assert(pfx.contains(e));
                    }
                }
                if pfx.contains(e) {
                    let x = choose|x: int| 0 <= x < pfx.len() && pfx[x] == e;
                    assert(npfx[x] == e);
                }
                if e == dv[i as int] {
                    assert(npfx[npfx.len() - 1] == e);
                }
            }
        }
        let e = &entries[i];
        let ghost ev = dv[i as int];
        proof {
            assert(ev.whom == e.whom@ && ev.clock == e.clock && ev.follow == e.follow);
        }
        if str_eq(e.whom.as_str(), whom) {
            if !found || e.clock > bc {
                found = true;
                bc = e.clock;
                fo = e.follow;
                nu = !e.follow;
                proof {
                    assert(npfx.contains(ev) && ev.whom == whom@ && ev.clock == bc);
                    assert forall|f: FollowEventView|
                        #![trigger npfx.contains(f)]
                        npfx.contains(f) && f.whom == whom@ implies f.clock <= bc by {
                        if f != ev {
                            assert(pfx.contains(f));
                        }
                    }
                    assert forall|f: FollowEventView|
                        #![trigger npfx.contains(f)]
                        npfx.contains(f) && f.whom == whom@ && f.clock == bc implies f == ev
                        by {
                        if f != ev {
                            assert(pfx.contains(f));
                        }
                    }
                    if ev.follow {
                        assert(npfx.contains(ev) && ev.whom == whom@ && ev.clock == bc
                            && ev.follow);
                        assert(!(exists|e2: FollowEventView|
                            #![trigger npfx.contains(e2)]
                            npfx.contains(e2) && e2.whom == whom@ && e2.clock == bc
                                && !e2.follow)) by {
                            if exists|e2: FollowEventView|
                                #![trigger npfx.contains(e2)]
                                npfx.contains(e2) && e2.whom == whom@ && e2.clock == bc
                                    && !e2.follow {
                                let e2 = choose|e2: FollowEventView|
                                    #![trigger npfx.contains(e2)]
                                    npfx.contains(e2) && e2.whom == whom@ && e2.clock == bc
                                        && !e2.follow;
                                assert(e2 == ev);
                            }
                        }
                    }
                    if !ev.follow {
                        assert(npfx.contains(ev) && ev.whom == whom@ && ev.clock == bc
                            && !ev.follow);
                        assert(!(exists|e2: FollowEventView|
                            #![trigger npfx.contains(e2)]
                            npfx.contains(e2) && e2.whom == whom@ && e2.clock == bc
                                && e2.follow)) by {
                            if exists|e2: FollowEventView|
                                #![trigger npfx.contains(e2)]
                                npfx.contains(e2) && e2.whom == whom@ && e2.clock == bc
                                    && e2.follow {
                                let e2 = choose|e2: FollowEventView|
                                    #![trigger npfx.contains(e2)]
                                    npfx.contains(e2) && e2.whom == whom@ && e2.clock == bc
                                        && e2.follow;
                                assert(e2 == ev);
                            }
                        }
                    }
                }
            } else if e.clock == bc {
                let ghost oldfo = fo;
                let ghost oldnu = nu;
                fo = fo || e.follow;
                nu = nu || !e.follow;
                proof {
                    assert forall|f: FollowEventView|
                        #![trigger npfx.contains(f)]
                        npfx.contains(f) && f.whom == whom@ implies f.clock <= bc by {
                        if f != ev {
                            assert(pfx.contains(f));
                        }
                    }
                    if oldfo {
                        let w2 = choose|w2: FollowEventView|
                            #![trigger pfx.contains(w2)]
                            pfx.contains(w2) && w2.whom == whom@ && w2.clock == bc
                                && w2.follow;
                        assert(npfx.contains(w2));
                    }
                    if oldnu {
                        let w2 = choose|w2: FollowEventView|
                            #![trigger pfx.contains(w2)]
                            pfx.contains(w2) && w2.whom == whom@ && w2.clock == bc
                                && !w2.follow;
                        assert(npfx.contains(w2));
                    }
                    let w3 = choose|w3: FollowEventView|
                        #![trigger pfx.contains(w3)]
                        pfx.contains(w3) && w3.whom == whom@ && w3.clock == bc;
                    assert(npfx.contains(w3));
                    if !fo {
                        assert(!(exists|f: FollowEventView|
                            #![trigger npfx.contains(f)]
                            npfx.contains(f) && f.whom == whom@ && f.clock == bc
                                && f.follow)) by {
                            if exists|f: FollowEventView|
                                #![trigger npfx.contains(f)]
                                npfx.contains(f) && f.whom == whom@ && f.clock == bc
                                    && f.follow {
                                let f = choose|f: FollowEventView|
                                    #![trigger npfx.contains(f)]
                                    npfx.contains(f) && f.whom == whom@ && f.clock == bc
                                        && f.follow;
                                if f != ev {
                                    assert(pfx.contains(f));
                                }
                            }
                        }
                    }
                    if fo && oldfo {
                        let w2 = choose|w2: FollowEventView|
                            #![trigger pfx.contains(w2)]
                            pfx.contains(w2) && w2.whom == whom@ && w2.clock == bc
                                && w2.follow;
                        assert(npfx.contains(w2));
                    }
                    if fo && !oldfo {
                        assert(npfx.contains(ev) && ev.follow);
                    }
                    if !nu {
                        assert(!(exists|f: FollowEventView|
                            #![trigger npfx.contains(f)]
                            npfx.contains(f) && f.whom == whom@ && f.clock == bc
                                && !f.follow)) by {
                            if exists|f: FollowEventView|
                                #![trigger npfx.contains(f)]
                                npfx.contains(f) && f.whom == whom@ && f.clock == bc
                                    && !f.follow {
                                let f = choose|f: FollowEventView|
                                    #![trigger npfx.contains(f)]
                                    npfx.contains(f) && f.whom == whom@ && f.clock == bc
                                        && !f.follow;
                                if f != ev {
                                    assert(pfx.contains(f));
                                }
                            }
                        }
                    }
                    if nu && oldnu {
                        let w2 = choose|w2: FollowEventView|
                            #![trigger pfx.contains(w2)]
                            pfx.contains(w2) && w2.whom == whom@ && w2.clock == bc
                                && !w2.follow;
                        assert(npfx.contains(w2));
                    }
                    if nu && !oldnu {
                        assert(npfx.contains(ev) && !ev.follow);
                    }
                }
            } else {
                proof {
                    assert(ev.clock < bc);
                    assert forall|f: FollowEventView|
                        #![trigger npfx.contains(f)]
                        npfx.contains(f) && f.whom == whom@ implies f.clock <= bc by {
                        if f != ev {
                            assert(pfx.contains(f));
                        }
                    }
                    let w3 = choose|w3: FollowEventView|
                        #![trigger pfx.contains(w3)]
                        pfx.contains(w3) && w3.whom == whom@ && w3.clock == bc;
                    assert(npfx.contains(w3));
                    if fo {
                        let w2 = choose|w2: FollowEventView|
                            #![trigger pfx.contains(w2)]
                            pfx.contains(w2) && w2.whom == whom@ && w2.clock == bc
                                && w2.follow;
                        assert(npfx.contains(w2));
                    }
                    if !fo {
                        assert forall|f: FollowEventView|
                            #![trigger npfx.contains(f)]
                            npfx.contains(f) && f.whom == whom@ && f.clock == bc && f.follow
                                implies false by {
                            if f != ev {
                                assert(pfx.contains(f));
                            }
                        }
                    }
                    if nu {
                        let w2 = choose|w2: FollowEventView|
                            #![trigger pfx.contains(w2)]
                            pfx.contains(w2) && w2.whom == whom@ && w2.clock == bc
                                && !w2.follow;
                        assert(npfx.contains(w2));
                    }
                    if !nu {
                        assert forall|f: FollowEventView|
                            #![trigger npfx.contains(f)]
                            npfx.contains(f) && f.whom == whom@ && f.clock == bc && !f.follow
                                implies false by {
                            if f != ev {
                                assert(pfx.contains(f));
                            }
                        }
                    }
                }
            }
        } else {
            proof {
                assert(ev.whom != whom@);
                assert forall|f: FollowEventView|
                    #![trigger npfx.contains(f)]
                    npfx.contains(f) && f.whom == whom@ implies pfx.contains(f) by {
                    if f == ev {
                        assert(false);
                    }
                }
                if found {
                    let w3 = choose|w3: FollowEventView|
                        #![trigger pfx.contains(w3)]
                        pfx.contains(w3) && w3.whom == whom@;
                    assert(npfx.contains(w3));
                    let w4 = choose|w4: FollowEventView|
                        #![trigger pfx.contains(w4)]
                        pfx.contains(w4) && w4.whom == whom@ && w4.clock == bc;
                    assert(npfx.contains(w4));
                }
                if fo {
                    let w2 = choose|w2: FollowEventView|
                        #![trigger pfx.contains(w2)]
                        pfx.contains(w2) && w2.whom == whom@ && w2.clock == bc && w2.follow;
                    assert(npfx.contains(w2));
                }
                if nu {
                    let w2 = choose|w2: FollowEventView|
                        #![trigger pfx.contains(w2)]
                        pfx.contains(w2) && w2.whom == whom@ && w2.clock == bc && !w2.follow;
                    assert(npfx.contains(w2));
                }
            }
        }
        i = i + 1;
    }
    proof {
        assert(dv.subrange(0, dv.len() as int) =~= dv);
        if found {
            lemma_followed_characterization(dv, whom@, bc);
        } else {
            if is_followed(dv, whom@) {
                let e = choose|e: FollowEventView|
                    #![trigger dv.contains(e)]
                    dv.contains(e) && e.whom == whom@ && e.follow && (forall|
                        f: FollowEventView,
                    |
                        #![trigger dv.contains(f)]
                        dv.contains(f) && f.whom == whom@ ==> (f.clock < e.clock || (f.clock
                            == e.clock && f.follow)));
                assert(dv.contains(e) && e.whom == whom@);
                assert(false);
            }
        }
    }
    found && fo && !nu
}

/// Whether a vector of strings holds one equal to `x`.
fn holds_string(v: &Vec<String>, x: &str) -> (r: bool)
    ensures
        r == v.deep_view().contains(x@),
{
    let mut i: usize = 0;
    while i < v.len()
        invariant
            i <= v@.len(),
            forall|j: int| 0 <= j < i ==> v.deep_view()[j] != x@,
        decreases v@.len() - i,
    {
        if str_eq(v[i].as_str(), x) {
            proof {
                assert(v.deep_view()[i as int] == x@);
            }
            return true;
        }
        proof {
            assert(v.deep_view()[i as int] == v@[i as int]@);
        }
        i = i + 1;
    }
    proof {
        if v.deep_view().contains(x@) {
            let j = choose|j: int| 0 <= j < v.deep_view().len() && v.deep_view()[j] == x@;
        }
    }
    false
}

/// The set of users the log currently marks as followed.
pub fn fold_following(entries: &Vec<FollowEvent>) -> (r: Vec<String>)
    ensures
        r.deep_view().no_duplicates(),
        forall|w: Seq<char>| #[trigger]
            r.deep_view().contains(w) <==> is_followed(entries.deep_view(), w),
{
    let ghost dv = entries.deep_view();
    let mut cands: Vec<String> = Vec::new();
    let mut i: usize = 0;
    while i < entries.len()
        invariant
            entries.deep_view() == dv,
            entries@.len() == dv.len(),
            i <= dv.len(),
            cands.deep_view().no_duplicates(),
            forall|w: Seq<char>| #[trigger]
                cands.deep_view().contains(w) <==> exists|j: int|
                    0 <= j < i && (#[trigger] dv[j]).whom == w,
        decreases dv.len() - i,
    {
        let ghost cdv = cands.deep_view();
        proof {
            assert(dv[i as int] == entries@[i as int].deep_view());
        }
        if !holds_string(&cands, entries[i].whom.as_str()) {
            cands.push(entries[i].whom.clone());
            proof {
                assert(cands.deep_view() =~= cdv.push(dv[i as int].whom));
                assert forall|m: int, n: int|
                    0 <= m < n < cands.deep_view().len() implies cands.deep_view()[m] != cands
                    .deep_view()[n] by {
                    if n == cdv.len() {
                        assert(cands.deep_view()[m] == cdv[m]);
                        assert(cdv.contains(cdv[m]));
                    }
                }
                assert forall|w: Seq<char>| #[trigger]
                    cands.deep_view().contains(w) <==> exists|j: int|
                        0 <= j < i + 1 && (#[trigger] dv[j]).whom == w by {
                    let ndv = cands.deep_view();
                    if ndv.contains(w) {
                        let x = choose|x: int| 0 <= x < ndv.len() && ndv[x] == w;
                        if x < cdv.len() {
                            assert(cdv[x] == w);
                            assert(cdv.contains(w));
                        } else {
                            assert(dv[i as int].whom == w);
                        }
                    }
                    if exists|j: int| 0 <= j < i + 1 && (#[trigger] dv[j]).whom == w {
                        let j = choose|j: int| 0 <= j < i + 1 && (#[trigger] dv[j]).whom == w;
                        if j < i {
                            assert(cdv.contains(w));
                            let x = choose|x: int| 0 <= x < cdv.len() && cdv[x] == w;
                            assert(ndv[x] == w);
                        } else {
                            assert(ndv[ndv.len() - 1] == w);
                        }
                    }
                }
            }
        } else {
            proof {
                assert forall|w: Seq<char>| #[trigger]
                    cands.deep_view().contains(w) <==> exists|j: int|
                        0 <= j < i + 1 && (#[trigger] dv[j]).whom == w by {
                    if exists|j: int| 0 <= j < i + 1 && (#[trigger] dv[j]).whom == w {
                        let j = choose|j: int| 0 <= j < i + 1 && (#[trigger] dv[j]).whom == w;
                        if j == i {
                            assert(cands.deep_view().contains(dv[i as int].whom));
                        }
                    }
                }
            }
        }
        i = i + 1;
    }
    let mut out: Vec<String> = Vec::new();
    let mut c: usize = 0;
    while c < cands.len()
        invariant
            entries.deep_view() == dv,
            c <= cands@.len(),
            cands.deep_view().no_duplicates(),
            out.deep_view().no_duplicates(),
            forall|w: Seq<char>| #[trigger]
                out.deep_view().contains(w) <==> (exists|j: int|
                    0 <= j < c && cands.deep_view()[j] == w) && is_followed(dv, w),
        decreases cands@.len() - c,
    {
        let ghost odv = out.deep_view();
        proof {
            assert(cands.deep_view()[c as int] == cands@[c as int]@);
        }
        if fold_is_followed(entries, cands[c].as_str()) {
            out.push(cands[c].clone());
            proof {
                assert(out.deep_view() =~= odv.push(cands.deep_view()[c as int]));
                assert forall|m: int, n: int|
                    0 <= m < n < out.deep_view().len() implies out.deep_view()[m] != out
                    .deep_view()[n] by {
                    if n == odv.len() {
                        assert(out.deep_view()[m] == odv[m]);
                        assert(odv.contains(odv[m]));
                        let x = choose|x: int| 0 <= x < c && cands.deep_view()[x] == odv[m];
                    }
                }
                assert forall|w: Seq<char>| #[trigger]
                    out.deep_view().contains(w) <==> ((exists|j: int|
                        0 <= j < c + 1 && cands.deep_view()[j] == w) && is_followed(dv, w))
                    by {
                    let ndv = out.deep_view();
                    if ndv.contains(w) {
                        let x = choose|x: int| 0 <= x < ndv.len() && ndv[x] == w;
                        if x < odv.len() {
                            assert(odv[x] == w);
                            assert(odv.contains(w));
                        } else {
                            assert(cands.deep_view()[c as int] == w);
                        }
                    }
                    if (exists|j: int| 0 <= j < c + 1 && cands.deep_view()[j] == w)
                        && is_followed(dv, w) {
                        let j = choose|j: int| 0 <= j < c + 1 && cands.deep_view()[j] == w;
                        if j < c {
                            assert(odv.contains(w));
                            let x = choose|x: int| 0 <= x < odv.len() && odv[x] == w;
                            assert(ndv[x] == w);
                        } else {
                            assert(ndv[ndv.len() - 1] == w);
                        }
                    }
                }
            }
        } else {
            proof {
                assert forall|w: Seq<char>| #[trigger]
                    out.deep_view().contains(w) <==> ((exists|j: int|
                        0 <= j < c + 1 && cands.deep_view()[j] == w) && is_followed(dv, w))
                    by {
                    if (exists|j: int| 0 <= j < c + 1 && cands.deep_view()[j] == w)
                        && is_followed(dv, w) {
                        let j = choose|j: int| 0 <= j < c + 1 && cands.deep_view()[j] == w;
                        if j == c {
                            assert(!is_followed(dv, cands.deep_view()[c as int]));
                            assert(false);
                        }
                    }
                }
            }
        }
        c = c + 1;
    }
    proof {
        assert forall|w: Seq<char>| #[trigger]
            out.deep_view().contains(w) <==> is_followed(entries.deep_view(), w) by {
            if is_followed(dv, w) {
                let e = choose|e: FollowEventView|
                    #![trigger dv.contains(e)]
                    dv.contains(e) && e.whom == w && e.follow && (forall|f: FollowEventView|
                        #![trigger dv.contains(f)]
                        dv.contains(f) && f.whom == w ==> (f.clock < e.clock || (f.clock
                            == e.clock && f.follow)));
                let j = choose|j: int| 0 <= j < dv.len() && dv[j] == e;
                assert(dv[j].whom == w);
                assert(cands.deep_view().contains(w));
                let x = choose|x: int|
                    0 <= x < cands.deep_view().len() && cands.deep_view()[x] == w;
            }
        }
    }
    out
}

/// Removing, by value, each entry of a list of values in turn.
pub open spec fn remove_values(l: Seq<Seq<char>>, vs: Seq<Seq<char>>) -> Seq<Seq<char>>
    decreases vs.len(),
{
    if vs.len() == 0 {
        l
    } else {
        remove_values(crate::storage::remove_all(l, vs[0]), vs.drop_first())
    }
}

/// Removing values in turn is filtering by "none of them".
proof fn lemma_remove_values_filter(l: Seq<Seq<char>>, vs: Seq<Seq<char>>)
    ensures
        remove_values(l, vs) == l.filter(|x: Seq<char>| !vs.contains(x)),
    decreases vs.len(), l.len(),
{
    reveal(Seq::filter);
    if vs.len() == 0 {
        assert forall|x: Seq<char>| !(#[trigger] vs.contains(x)) by {
            if vs.contains(x) {
                let j = choose|j: int| 0 <= j < vs.len() && vs[j] == x;
            }
        }
        lemma_filter_true(l, |x: Seq<char>| !vs.contains(x));
    } else {
        crate::storage::lemma_filter_is_remove_all(
            l,
            |x: Seq<char>| x != vs[0],
            vs[0],
        );
        lemma_remove_values_filter(l.filter(|x: Seq<char>| x != vs[0]), vs.drop_first());
        lemma_filter_compose(l, vs);
    }
}

/// A filter whose predicate holds everywhere gives the list back.
proof fn lemma_filter_true(l: Seq<Seq<char>>, pred: spec_fn(Seq<char>) -> bool)
    requires
        forall|x: Seq<char>| #[trigger] pred(x),
    ensures
        l.filter(pred) == l,
    decreases l.len(),
{
    reveal(Seq::filter);
    if l.len() > 0 {
        lemma_filter_true(l.drop_last(), pred);
        assert(l.filter(pred) =~= l);
    } else {
        assert(l.filter(pred) =~= l);
    }
}

/// Filtering away `vs[0]` and then the rest filters away all of `vs`.
proof fn lemma_filter_compose(l: Seq<Seq<char>>, vs: Seq<Seq<char>>)
    requires
        vs.len() > 0,
    ensures
        l.filter(|x: Seq<char>| x != vs[0]).filter(
            |x: Seq<char>| !vs.drop_first().contains(x),
        ) == l.filter(|x: Seq<char>| !vs.contains(x)),
    decreases l.len(),
{
    reveal(Seq::filter);
    let p0 = |x: Seq<char>| x != vs[0];
    let pr = |x: Seq<char>| !vs.drop_first().contains(x);
    let pa = |x: Seq<char>| !vs.contains(x);
    if l.len() > 0 {
        lemma_filter_compose(l.drop_last(), vs);
        let x = l.last();
        assert(pa(x) == (p0(x) && pr(x))) by {
            if vs.contains(x) {
                let j = choose|j: int| 0 <= j < vs.len() && vs[j] == x;
                if j == 0 {
                    assert(!p0(x));
                } else {
                    assert(vs.drop_first()[j - 1] == x);
                    assert(!pr(x));
                }
            }
            if !p0(x) {
                assert(vs[0] == x);
                assert(vs.contains(x));
            }
            if !pr(x) {
                let j = choose|j: int|
                    0 <= j < vs.drop_first().len() && vs.drop_first()[j] == x;
                assert(vs[j + 1] == x);
                assert(vs.contains(x));
            }
        }
        if p0(x) {
            assert(l.filter(p0) == l.drop_last().filter(p0).push(x));
            assert(l.filter(p0).drop_last() =~= l.drop_last().filter(p0));
            assert(l.filter(p0).last() == x);
        }
        assert(l.filter(p0).filter(pr) =~= l.filter(pa));
    } else {
        assert(l.filter(p0) =~= l);
        assert(l.filter(p0).filter(pr) =~= l.filter(pa));
    }
}

/// The garbage-collection bound: after removing, by value, each of the
/// first `k` entries of a list, at most `len - k` entries remain.
pub proof fn lemma_gc_bound(l: Seq<Seq<char>>, k: int)
    requires
        0 <= k <= l.len(),
    ensures
        remove_values(l, l.subrange(0, k)).len() <= l.len() - k,
{
    let vs = l.subrange(0, k);
    lemma_remove_values_filter(l, vs);
    assert forall|i: int| 0 <= i < k implies vs.contains(#[trigger] l[i]) by {
        assert(vs[i] == l[i]);
    }
    lemma_filter_missing_prefix(l, |x: Seq<char>| !vs.contains(x), k);
}

/// A filter whose predicate fails on the first `k` entries keeps at most
/// `len - k`.
proof fn lemma_filter_missing_prefix(
    l: Seq<Seq<char>>,
    pred: spec_fn(Seq<char>) -> bool,
    k: int,
)
    requires
        0 <= k <= l.len(),
        forall|i: int| 0 <= i < k ==> !pred(#[trigger] l[i]),
    ensures
        l.filter(pred).len() <= l.len() - k,
    decreases l.len(),
{
    reveal(Seq::filter);
    if l.len() > 0 {
        if k == l.len() {
            assert(!pred(l.last())) by {
                assert(l[l.len() - 1] == l.last());
            }
            assert(forall|i: int| 0 <= i < k - 1 ==> l.drop_last()[i] == l[i]);
            lemma_filter_missing_prefix(l.drop_last(), pred, k - 1);
        } else {
            assert(forall|i: int| 0 <= i < k ==> l.drop_last()[i] == l[i]);
            lemma_filter_missing_prefix(l.drop_last(), pred, k);
        }
    }
}

/// A name for what `serde_json` writes for a list of user names.
pub uninterp spec fn users_json(names: Seq<Seq<char>>) -> Seq<char>;

/// Relies on `serde_json::to_string` for `Vec<String>`: the encoding is
/// a function of the names alone.
#[verifier::external_body]
fn encode_users(names: &Vec<String>) -> (r: String)
    ensures
        r@ == users_json(names.deep_view()),
{
    serde_json::to_string(names).unwrap_or(String::new())
}

/// Relies on `serde_json::from_str` for `Vec<String>`: whatever
/// `serde_json::to_string` wrote for a list of names reads back as that
/// list.
#[verifier::external_body]
fn decode_users(s: &str) -> (r: Option<Vec<String>>)
    ensures
        r matches Some(l) ==> forall|names: Seq<Seq<char>>|
            s@ == users_json(names) ==> l.deep_view() == names,
        r is None ==> forall|names: Seq<Seq<char>>| s@ != users_json(names),
{
    serde_json::from_str::<Vec<String>>(s).ok()
}

/// The well-formed post records of a raw list, in storage order.
pub open spec fn parse_tribs_spec(l: Seq<Seq<char>>) -> Seq<TribView>
    decreases l.len(),
{
    if l.len() == 0 {
        Seq::empty()
    } else {
        let rest = parse_tribs_spec(l.drop_last());
        match parse_trib_spec(l.last()) {
            Some(tv) => rest.push(tv),
            None => rest,
        }
    }
}

/// The well-formed follow-log entries of a raw list, in storage order.
pub open spec fn parse_follow_log_spec(l: Seq<Seq<char>>) -> Seq<FollowEventView>
    decreases l.len(),
{
    if l.len() == 0 {
        Seq::empty()
    } else {
        let rest = parse_follow_log_spec(l.drop_last());
        match parse_follow_spec(l.last()) {
            Some(ev) => rest.push(ev),
            None => rest,
        }
    }
}

/// Appending a record extends the parsed log by what it parses to.
pub proof fn lemma_parse_follow_log_snoc(l: Seq<Seq<char>>, s: Seq<char>)
    ensures
        parse_follow_log_spec(l.push(s)) == match parse_follow_spec(s) {
            Some(ev) => parse_follow_log_spec(l).push(ev),
            None => parse_follow_log_spec(l),
        },
{
    assert(l.push(s).drop_last() =~= l);
    assert(l.push(s).last() == s);
}

/// Whatever [`encode_follow_spec`] writes parses back to the event, at
/// the specification level.
pub proof fn lemma_parse_follow_spec_round_trip(ev: FollowEventView)
    ensures
        parse_follow_spec(encode_follow_spec(ev)) == Some(ev),
{
    lemma_follow_fields(ev);
    let head: Seq<char> = if ev.follow {
        seq!['f']
    } else {
        seq!['u']
    };
    let rest = dec_seq(ev.clock as nat) + seq![':'] + escape_seq(ev.whom);
    let enc = encode_follow_spec(ev);
    assert(enc == head + seq![':'] + rest);
    assert(enc[head.len() as int] == ':');
    assert(forall|j: int| 0 <= j < head.len() ==> enc[j] == head[j]);
    lemma_split_colon_at(enc, head.len() as int);
    assert(enc.subrange(0, head.len() as int) =~= head);
    assert(enc.subrange(head.len() as int + 1, enc.len() as int) =~= rest);
    let d = dec_seq(ev.clock as nat);
    assert(rest[d.len() as int] == ':');
    assert(forall|j: int| 0 <= j < d.len() ==> rest[j] == d[j]);
    lemma_split_colon_at(rest, d.len() as int);
    assert(rest.subrange(0, d.len() as int) =~= d);
    assert(rest.subrange(d.len() as int + 1, rest.len() as int) =~= escape_seq(ev.whom));
    lemma_dec_seq_val(ev.clock as nat);
    lemma_escape_round_trip(ev.whom);
    if ev.follow {
        assert(head == seq!['f']);
    } else {
        assert(head[0] == 'u');
        assert(head != seq!['f']);
    }
}

/// Parses every well-formed post record of a raw list, keeping order and
/// skipping what does not parse: [`parse_tribs_spec`].
fn parse_tribs(raw: &crate::storage::List) -> (r: Vec<Trib>)
    ensures
        r.deep_view() == parse_tribs_spec(raw.0.deep_view()),
{
    let ghost rdv = raw.0.deep_view();
    let mut out: Vec<Trib> = Vec::new();
    let mut i: usize = 0;
    proof {
        assert(rdv.subrange(0, 0) =~= Seq::<Seq<char>>::empty());
    }
    while i < raw.0.len()
        invariant
            raw.0.deep_view() == rdv,
            raw.0@.len() == rdv.len(),
            i <= rdv.len(),
            out.deep_view() == parse_tribs_spec(rdv.subrange(0, i as int)),
        decreases rdv.len() - i,
    {
        proof {
            assert(rdv.subrange(0, i + 1).drop_last() =~= rdv.subrange(0, i as int));
            assert(rdv.subrange(0, i + 1).last() == rdv[i as int]);
            assert(rdv[i as int] == raw.0@[i as int]@);
        }
        let ghost odv = out.deep_view();
        match parse_trib(raw.0[i].as_str()) {
            Some(t) => {
                let ghost tv = t.deep_view();
                out.push(t);
                proof {
                    assert(out.deep_view() =~= odv.push(tv));
                }
            },
            None => {},
        }
        i = i + 1;
    }
    proof {
        assert(rdv.subrange(0, rdv.len() as int) =~= rdv);
    }
    out
}

/// Parses every well-formed follow-log entry of a raw list, in order:
/// [`parse_follow_log_spec`].
fn parse_follow_log(raw: &crate::storage::List) -> (r: Vec<FollowEvent>)
    ensures
        r.deep_view() == parse_follow_log_spec(raw.0.deep_view()),
{
    let ghost rdv = raw.0.deep_view();
    let mut out: Vec<FollowEvent> = Vec::new();
    let mut i: usize = 0;
    proof {
        assert(rdv.subrange(0, 0) =~= Seq::<Seq<char>>::empty());
    }
    while i < raw.0.len()
        invariant
            raw.0.deep_view() == rdv,
            raw.0@.len() == rdv.len(),
            i <= rdv.len(),
            out.deep_view() == parse_follow_log_spec(rdv.subrange(0, i as int)),
        decreases rdv.len() - i,
    {
        proof {
            assert(rdv.subrange(0, i + 1).drop_last() =~= rdv.subrange(0, i as int));
            assert(rdv.subrange(0, i + 1).last() == rdv[i as int]);
            assert(rdv[i as int] == raw.0@[i as int]@);
        }
        let ghost odv = out.deep_view();
        match parse_follow(raw.0[i].as_str()) {
            Some(e) => {
                let ghost ev = e.deep_view();
                out.push(e);
                proof {
                    assert(out.deep_view() =~= odv.push(ev));
                }
            },
            None => {},
        }
        i = i + 1;
    }
    proof {
        assert(rdv.subrange(0, rdv.len() as int) =~= rdv);
    }
    out
}

/// What a fetch hands back for a pool of parsed posts: an ascending
/// Tribble-Order arrangement of the newest at most
/// [`crate::trib::MAX_TRIB_FETCH`] of them — every dropped post sorts no
/// later than every kept one.
pub open spec fn fetch_window(pool: Seq<TribView>, out: Seq<TribView>) -> bool {
    &&& out.len() <= crate::trib::MAX_TRIB_FETCH
    &&& (forall|m1: int, m2: int|
        0 <= m1 < m2 < out.len() ==> crate::trib::trib_le(
            #[trigger] out[m1],
            #[trigger] out[m2],
        ))
    &&& (pool.len() <= crate::trib::MAX_TRIB_FETCH ==> out.to_multiset() == pool.to_multiset())
    &&& (pool.len() > crate::trib::MAX_TRIB_FETCH ==> out.len()
        == crate::trib::MAX_TRIB_FETCH && exists|dropped: Seq<TribView>|
        (#[trigger] dropped.to_multiset()).add(out.to_multiset()) == pool.to_multiset() && (
        forall|a: TribView, b: TribView|
            dropped.contains(a) && out.contains(b) ==> crate::trib::trib_le(a, b)))
}

/// Sorts and keeps the newest [`crate::trib::MAX_TRIB_FETCH`] tribs.
fn order_and_trim(v: Vec<Trib>) -> (r: Vec<Trib>)
    ensures
        fetch_window(v.deep_view(), r.deep_view()),
{
    broadcast use vstd::seq_lib::group_to_multiset_ensures;

    let ghost vdv = v.deep_view();
    let sorted = crate::trib::sort_tribs(v);
    let ghost sdv = sorted.deep_view();
    let out = crate::trib::take_newest(sorted, crate::trib::MAX_TRIB_FETCH);
    proof {
        let odv = out.deep_view();
        sdv.to_multiset_ensures();
        vdv.to_multiset_ensures();
        assert(sdv.len() == vdv.len());
        if sdv.len() > crate::trib::MAX_TRIB_FETCH {
            let off = sdv.len() - crate::trib::MAX_TRIB_FETCH;
            let dropped = sdv.subrange(0, off as int);
            assert(odv =~= sdv.subrange(off as int, sdv.len() as int));
            assert forall|m: int, n: int|
                0 <= m < n < odv.len() implies crate::trib::trib_le(
                #[trigger] odv[m],
                #[trigger] odv[n],
            ) by {
                assert(odv[m] == sdv[off + m]);
                assert(odv[n] == sdv[off + n]);
            }
            assert(sdv =~= dropped + odv);
            vstd::seq_lib::lemma_multiset_commutative(dropped, odv);
            assert(dropped.to_multiset().add(odv.to_multiset()) == sdv.to_multiset());
            assert forall|a: TribView, b: TribView|
                dropped.contains(a) && odv.contains(b) implies crate::trib::trib_le(
                a,
                b,
            ) by {
                let ia = choose|ia: int| 0 <= ia < dropped.len() && dropped[ia] == a;
                let ib = choose|ib: int| 0 <= ib < odv.len() && odv[ib] == b;
                assert(sdv[ia] == a);
                assert(sdv[off + ib] == b);
            }
        } else {
            assert(odv =~= sdv);
        }
    }
    out
}

/// The stateless Tribbler front-end: every operation becomes a short
/// sequence of bin storage calls, per-user state living in the bin named
/// after the user and the user registry in the bin named by the empty
/// string.
pub struct FrontServer {
    bins: BinStore,
}

impl FrontServer {
    /// The bin storage this front-end drives.
    pub closed spec fn store(self) -> BinStore {
        self.bins
    }

    /// Well-formedness: the storage is well formed.
    pub open spec fn wf(self) -> bool {
        self.store().wf()
    }

    /// Wraps a bin storage in a front-end.
    pub fn new_front(bins: BinStore) -> (s: FrontServer)
        requires
            bins.wf(),
        ensures
            s.wf(),
            s.store() == bins,
    {
        FrontServer { bins }
    }

    /// Hands the bin storage back, for direct inspection.
    pub fn into_store(self) -> (b: BinStore)
        ensures
            b == self.store(),
    {
        self.bins
    }

    /// Marks the back-end at `i` as down, as a failure would: only the
    /// liveness flag changes.
    pub fn kill_back(&mut self, i: usize)
        requires
            old(self).wf(),
            i < old(self).store().nback(),
        ensures
            final(self).wf(),
            final(self).store().nback() == old(self).store().nback(),
            final(self).store().rfactor() == old(self).store().rfactor(),
            forall|j: int|
                0 <= j < old(self).store().nback() ==> final(self).store().back_at(j) == old(
                    self,
                ).store().back_at(j),
            forall|j: int|
                0 <= j < old(self).store().nback() ==> final(self).store().live_at(j) == (j
                    != i && old(self).store().live_at(j)),
    {
        self.bins.kill(i);
    }

    /// Registers a new user: appends to the registry log and sets the
    /// user's `signup` cell.
    pub fn sign_up(&mut self, user: &str) -> (r: Result<(), TribblerError>)
        requires
            old(self).wf(),
        ensures
            final(self).wf(),
            !crate::trib::valid_username(user@) <==> (r matches Err(e) && e matches
                TribblerError::InvalidUsername(_)),
            !crate::trib::valid_username(user@) ==> *final(self) == *old(self),
            crate::trib::valid_username(user@) && old(self).store().has_live_replica(user@)
                && old(self).store().back_at(old(self).store().read_from(user@)).kv_of(
                compose_key_spec(user@, "signup"@),
            ) is Some ==> (r matches Err(e) && e matches TribblerError::UsernameTaken(_)
                && *final(self) == *old(self)),
            crate::trib::valid_username(user@) && old(self).store().has_live_replica(user@)
                && old(self).store().has_live_replica(""@) && old(self).store().back_at(
                old(self).store().read_from(user@),
            ).kv_of(compose_key_spec(user@, "signup"@)) is None ==> r is Ok,
            r is Ok ==> crate::trib::valid_username(user@),
            r is Ok ==> ({
                let i0 = old(self).store().read_from(""@);
                let iu = old(self).store().read_from(user@);
                &&& old(self).store().has_live_replica(""@)
                &&& old(self).store().has_live_replica(user@)
                &&& final(self).store().back_at(i0).list_of(compose_key_spec(""@, "users"@))
                    == old(self).store().back_at(i0).list_of(
                    compose_key_spec(""@, "users"@),
                ).push(crate::colon::escape_seq(user@))
                &&& final(self).store().back_at(iu).kv_of(compose_key_spec(user@, "signup"@))
                    == Some(seq!['1'])
            }),
    {
        if !crate::trib::is_valid_username(user) {
            return Err(TribblerError::InvalidUsername(user.to_owned()));
        }
        match self.bins.bin_get(user, "signup") {
            Err(e) => Err(e),
            Ok(Some(_)) => Err(TribblerError::UsernameTaken(user.to_owned())),
            Ok(None) => {
                let entry = escape(user);
                let ghost s1 = self.bins;
                match self.bins.bin_list_append("", &KeyValue::new("users", entry.as_str())) {
                    Err(e) => {
                        proof {
                            if old(self).store().has_live_replica(""@) {
                                assert(s1.has_live_replica(""@));
                                assert(false);
                            }
                        }
                        Err(e)
                    },
                    Ok(_) => {
                        let ghost s2 = self.bins;
                        proof {
                            s1.lemma_read_sees_write(""@);
                            assert(s2.back_at(s1.read_from(""@)).list_of(
                                compose_key_spec(""@, "users"@),
                            ) == s1.back_at(s1.read_from(""@)).list_of(
                                compose_key_spec(""@, "users"@),
                            ).push(crate::colon::escape_seq(user@)));
                        }
                        match self.bins.bin_set(user, &KeyValue::new("signup", "1")) {
                            Err(e) => {
                                proof {
                                    if old(self).store().has_live_replica(user@) {
                                        s1.lemma_routing_same_config(s2, user@);
                                        assert(s2.has_live_replica(user@));
                                        assert(false);
                                    }
                                }
                                Err(e)
                            },
                            Ok(_) => {
                                proof {
                                    s1.lemma_routing_same_config(s2, user@);
                                    s2.lemma_read_sees_write(user@);
                                    assert(s2.writes_to(user@, s1.read_from(user@)));
                                    reveal_strlit("1");
                                    assert("1"@ =~= seq!['1']);
                                    assert(self.bins.back_at(s1.read_from(user@)).kv_of(
                                        compose_key_spec(user@, "signup"@),
                                    ) == Some(seq!['1']));
                                }
                                Ok(())
                            },
                        }
                    },
                }
            },
        }
    }

    /// Lists registered users: up to [`crate::trib::MIN_LIST_USER`]
    /// distinct names, ascending; prefers the frozen cache and freezes it
    /// once enough users exist.
    pub fn list_users(&mut self) -> (r: Result<Vec<String>, TribblerError>)
        requires
            old(self).wf(),
        ensures
            final(self).wf(),
            old(self).store().has_live_replica(""@) ==> r is Ok,
            r matches Ok(l) ==> selected_from(l.deep_view(), l.deep_view()),
            r matches Ok(l) ==> ({
                let i = old(self).store().read_from(""@);
                let cache = old(self).store().back_at(i).kv_of(
                    compose_key_spec(""@, "users_cache"@),
                );
                let logged = unescape_all(
                    old(self).store().back_at(i).list_of(compose_key_spec(""@, "users"@)),
                );
                &&& (cache matches Some(c) ==> forall|nsj: Seq<Seq<char>>|
                    c == users_json(nsj) ==> selected_from(nsj, l.deep_view()))
                &&& (cache is None ==> selected_from(logged, l.deep_view()))
            }),
    {
        proof {
            if old(self).store().has_live_replica(""@) {
                old(self).store().lemma_read_sees_write(""@);
            }
        }
        match self.bins.bin_get("", "users_cache") {
            Err(e) => {
                return Err(e);
            },
            Ok(Some(cached)) => {
                match decode_users(cached.as_str()) {
                    Some(names) => {
                        let picked = select_users(&names);
                        proof {
                            assert forall|nsj: Seq<Seq<char>>|
                                cached@ == users_json(nsj) implies selected_from(
                                nsj,
                                picked.deep_view(),
                            ) by {
                                assert(names.deep_view() == nsj);
                            }
                            lemma_selected_from_idempotent(
                                names.deep_view(),
                                picked.deep_view(),
                            );
                        }
                        return Ok(picked);
                    },
                    None => {
                        proof {
                            assert(forall|nsj: Seq<Seq<char>>| cached@ != users_json(nsj));
                        }
                    },
                }
                let raw = match self.bins.bin_list_get("", "users") {
                    Err(e) => {
                        return Err(e);
                    },
                    Ok(l) => l,
                };
                let names = unescape_entries(&raw);
                let picked = select_users(&names);
                proof {
                    lemma_selected_from_idempotent(names.deep_view(), picked.deep_view());
                }
                Ok(picked)
            },
            Ok(None) => {
                let raw = match self.bins.bin_list_get("", "users") {
                    Err(e) => {
                        return Err(e);
                    },
                    Ok(l) => l,
                };
                let names = unescape_entries(&raw);
                let picked = select_users(&names);
                proof {
                    lemma_selected_from_idempotent(names.deep_view(), picked.deep_view());
                }
                if picked.len() >= crate::trib::MIN_LIST_USER {
                    let frozen = encode_users(&picked);
                    let _ = self.bins.bin_set(
                        "",
                        &KeyValue::new("users_cache", frozen.as_str()),
                    );
                }
                Ok(picked)
            },
        }
    }

    /// Posts a message: bumps the poster's bin clock past `seen_clock`,
    /// appends the record, and trims the log once it exceeds twice the
    /// fetch window.
    pub fn post(&mut self, who: &str, message: &str, seen_clock: u64) -> (r: Result<
        (),
        TribblerError,
    >)
        requires
            old(self).wf(),
        ensures
            final(self).wf(),
            message@.len() > crate::trib::MAX_TRIB_LEN <==> (r matches Err(e) && e matches
                TribblerError::TribTooLong),
            message@.len() > crate::trib::MAX_TRIB_LEN ==> *final(self) == *old(self),
            r is Ok && old(self).store().has_live_replica(who@) ==> ({
                let key = compose_key_spec(who@, "posts"@);
                let i = old(self).store().read_from(who@);
                let l0 = old(self).store().back_at(i).list_of(key);
                &&& (l0.len() >= 2 * crate::trib::MAX_TRIB_FETCH ==> final(self).store().back_at(i).list_of(key).len() <= crate::trib::MAX_TRIB_FETCH)
                &&& (l0.len() < 2 * crate::trib::MAX_TRIB_FETCH ==> final(self).store().back_at(i).list_of(key).len() <= 2 * crate::trib::MAX_TRIB_FETCH)
            }),
            message@.len() <= crate::trib::MAX_TRIB_LEN && old(self).store().has_live_replica(
                who@,
            ) && old(self).store().back_at(old(self).store().read_from(who@)).kv_of(
                compose_key_spec(who@, "signup"@),
            ) is None ==> (r matches Err(e) && e matches TribblerError::UserDoesNotExist(_)),
            message@.len() <= crate::trib::MAX_TRIB_LEN && user_present(
                old(self).store(),
                who@,
            ) && crate::storage::clock_read(
                old(self).store().back_at(old(self).store().read_from(who@)).clock_of(),
                crate::ref_impl::clock_bump(seen_clock),
            ) < u64::MAX ==> r is Ok,
            r is Ok && old(self).store().has_live_replica(who@) ==> ({
                let key = compose_key_spec(who@, "posts"@);
                let i = old(self).store().read_from(who@);
                let l0 = old(self).store().back_at(i).list_of(key);
                let c = crate::storage::clock_read(
                    old(self).store().back_at(i).clock_of(),
                    crate::ref_impl::clock_bump(seen_clock),
                );
                &&& c >= crate::ref_impl::clock_bump(seen_clock)
                &&& exists|t: u64| ({
                    let l1 = l0.push(
                        #[trigger] encode_trib_spec(
                            TribView { user: who@, message: message@, time: t, clock: c },
                        ),
                    );
                    final(self).store().back_at(i).list_of(key) == if l1.len() > 2
                        * crate::trib::MAX_TRIB_FETCH {
                        remove_values(
                            l1,
                            l1.subrange(0, l1.len() - crate::trib::MAX_TRIB_FETCH),
                        )
                    } else {
                        l1
                    }
                })
            }),
    {
        if message.unicode_len() > crate::trib::MAX_TRIB_LEN {
            return Err(TribblerError::TribTooLong);
        }
        let ghost s0 = self.bins;
        match self.bins.bin_get(who, "signup") {
            Err(e) => {
                return Err(e);
            },
            Ok(None) => {
                return Err(TribblerError::UserDoesNotExist(who.to_owned()));
            },
            Ok(Some(_)) => {},
        }
        let at_least = if seen_clock < u64::MAX {
            seen_clock + 1
        } else {
            u64::MAX
        };
        proof {
            assert(at_least == crate::ref_impl::clock_bump(seen_clock));
        }
        let c = match self.bins.bin_clock(who, at_least) {
            Err(e) => {
                proof {
                    if old(self).store().has_live_replica(who@) {
                        assert(false);
                    }
                }
                return Err(e);
            },
            Ok(c) => c,
        };
        proof {
            if old(self).store().has_live_replica(who@) {
                assert(c == crate::storage::clock_read(
                    old(self).store().back_at(old(self).store().read_from(who@)).clock_of(),
                    crate::ref_impl::clock_bump(seen_clock),
                ));
            }
        }
        if c == u64::MAX {
            return Err(TribblerError::MaxedSeq);
        }
        let time = crate::strutil::now_secs();
        let trib = Trib { user: who.to_owned(), message: message.to_owned(), time, clock: c };
        let enc = encode_trib(&trib);
        let ghost s1 = self.bins;
        match self.bins.bin_list_append(who, &KeyValue::new("posts", enc.as_str())) {
            Err(e) => {
                proof {
                    if old(self).store().has_live_replica(who@) {
                        old(self).store().lemma_routing_same_config(s1, who@);
                        assert(false);
                    }
                }
                return Err(e);
            },
            Ok(_) => {},
        }
        let ghost s2 = self.bins;
        let raw = match self.bins.bin_list_get(who, "posts") {
            Err(e) => {
                proof {
                    if old(self).store().has_live_replica(who@) {
                        old(self).store().lemma_routing_same_config(s2, who@);
                        assert(false);
                    }
                }
                return Err(e);
            },
            Ok(l) => l,
        };
        let ghost s3 = self.bins;
        let ghost key = compose_key_spec(who@, "posts"@);
        proof {
            if old(self).store().has_live_replica(who@) {
                old(self).store().lemma_routing_same_config(s1, who@);
                old(self).store().lemma_routing_same_config(s2, who@);
                old(self).store().lemma_routing_same_config(s3, who@);
                s2.lemma_read_sees_write(who@);
            }
        }
        let n = raw.0.len();
        if n > 2 * crate::trib::MAX_TRIB_FETCH {
            let keep = crate::trib::MAX_TRIB_FETCH;
            let k = n - keep;
            let ghost l1 = raw.0.deep_view();
            let ghost ri = old(self).store().read_from(who@);
            let mut v: usize = 0;
            while v < k
                invariant
                    self.bins.wf(),
                    old(self).store().has_live_replica(who@) ==> ({
                        &&& self.bins.same_config(old(self).store())
                        &&& v <= k
                        &&& k == l1.len() - crate::trib::MAX_TRIB_FETCH
                        &&& raw.0@.len() == l1.len()
                        &&& k <= l1.len()
                        &&& 0 <= ri < self.bins.nback()
                        &&& ri == old(self).store().read_from(who@)
                        &&& forall|j: int| 0 <= j < l1.len() ==> l1[j] == raw.0@[j]@
                        &&& self.bins.back_at(ri).list_of(key) == remove_values(
                            l1,
                            l1.subrange(0, v as int),
                        )
                        &&& key == compose_key_spec(who@, "posts"@)
                    }),
                    v <= k,
                    k < raw.0@.len(),
                decreases k - v,
            {
                let ghost sv = self.bins;
                let _ = self.bins.bin_list_remove(
                    who,
                    &KeyValue::new("posts", raw.0[v].as_str()),
                );
                proof {
                    if old(self).store().has_live_replica(who@) {
                        old(self).store().lemma_routing_same_config(sv, who@);
                        sv.lemma_read_sees_write(who@);
                        assert(sv.writes_to(who@, ri));
                        assert(self.bins.back_at(ri).list_of(key) == crate::storage::remove_all(
                            sv.back_at(ri).list_of(key),
                            raw.0@[v as int]@,
                        ));
                        assert(l1.subrange(0, v + 1).drop_first() =~= l1.subrange(
                            1,
                            v + 1,
                        ));
                        lemma_remove_values_snoc(l1, l1.subrange(0, v as int), l1[v as int]);
                        assert(l1.subrange(0, v + 1) =~= l1.subrange(0, v as int).push(
                            l1[v as int],
                        ));
                        assert(self.bins.same_config(old(self).store()));
                    }
                }
                v = v + 1;
            }
            proof {
                if old(self).store().has_live_replica(who@) {
                    lemma_gc_bound(l1, k as int);
                }
            }
        }
        proof {
            if old(self).store().has_live_replica(who@) {
                let i = old(self).store().read_from(who@);
                let l0 = old(self).store().back_at(i).list_of(key);
                assert(s2.back_at(i).list_of(key) == l0.push(enc@));
                assert(raw.0.deep_view() == s2.back_at(i).list_of(key));
                let cc = crate::storage::clock_read(
                    old(self).store().back_at(i).clock_of(),
                    crate::ref_impl::clock_bump(seen_clock),
                );
                let l1 = l0.push(
                    encode_trib_spec(
                        TribView { user: who@, message: message@, time, clock: cc },
                    ),
                );
                assert(enc@ == encode_trib_spec(
                    TribView { user: who@, message: message@, time, clock: cc },
                ));
                assert(l1 == raw.0.deep_view());
                if l1.len() > 2 * crate::trib::MAX_TRIB_FETCH {
                    assert(self.bins.back_at(i).list_of(key) == remove_values(
                        l1,
                        l1.subrange(0, l1.len() - crate::trib::MAX_TRIB_FETCH),
                    ));
                } else {
                    assert(self.bins.back_at(i).list_of(key) == l1);
                }
            }
        }
        Ok(())
    }

    /// The newest tribs of one user, in Tribble Order.
    pub fn tribs(&mut self, who: &str) -> (r: Result<Vec<Trib>, TribblerError>)
        requires
            old(self).wf(),
        ensures
            final(self).wf(),
            *final(self) == *old(self),
            old(self).store().has_live_replica(who@) && old(self).store().back_at(
                old(self).store().read_from(who@),
            ).kv_of(compose_key_spec(who@, "signup"@)) is None ==> (r matches Err(e)
                && e matches TribblerError::UserDoesNotExist(_)),
            user_present(old(self).store(), who@) ==> r is Ok,
            r matches Ok(l) ==> old(self).store().has_live_replica(who@) && fetch_window(
                parse_tribs_spec(
                    old(self).store().back_at(old(self).store().read_from(who@)).list_of(
                        compose_key_spec(who@, "posts"@),
                    ),
                ),
                l.deep_view(),
            ),
    {
        match self.bins.bin_get(who, "signup") {
            Err(e) => {
                return Err(e);
            },
            Ok(None) => {
                return Err(TribblerError::UserDoesNotExist(who.to_owned()));
            },
            Ok(Some(_)) => {},
        }
        let raw = match self.bins.bin_list_get(who, "posts") {
            Err(e) => {
                return Err(e);
            },
            Ok(l) => l,
        };
        let parsed = parse_tribs(&raw);
        Ok(order_and_trim(parsed))
    }

    /// Makes `who` follow `whom` through the append-only follow log.
    pub fn follow(&mut self, who: &str, whom: &str) -> (r: Result<(), TribblerError>)
        requires
            old(self).wf(),
        ensures
            final(self).wf(),
            who@ == whom@ <==> (r matches Err(e) && e matches TribblerError::WhoWhom(_)),
            who@ == whom@ ==> *final(self) == *old(self),
            who@ != whom@ && old(self).store().has_live_replica(who@) && old(
                self,
            ).store().back_at(old(self).store().read_from(who@)).kv_of(
                compose_key_spec(who@, "signup"@),
            ) is None ==> (r matches Err(e) && e matches TribblerError::UserDoesNotExist(_)),
            r is Ok ==> ({
                let key = compose_key_spec(who@, "follow_log"@);
                let i = old(self).store().read_from(who@);
                &&& old(self).store().has_live_replica(who@)
                &&& exists|c: u64|
                    final(self).store().back_at(i).list_of(key) == old(self).store().back_at(
                        i,
                    ).list_of(key).push(
                        #[trigger] encode_follow_spec(
                            FollowEventView { follow: true, clock: c, whom: whom@ },
                        ),
                    )
            }),
            follow_would_succeed(old(self).store(), who@, whom@) ==> r is Ok,
    {
        let ghost oldlog = stored_follow_log(old(self).store(), who@);
        if str_eq(who, whom) {
            return Err(TribblerError::WhoWhom(who.to_owned()));
        }
        match self.check_exists(who) {
            Err(e) => {
                return Err(e);
            },
            Ok(_) => {},
        }
        match self.check_exists(whom) {
            Err(e) => {
                return Err(e);
            },
            Ok(_) => {},
        }
        let raw = match self.bins.bin_list_get(who, "follow_log") {
            Err(e) => {
                return Err(e);
            },
            Ok(l) => l,
        };
        let log = parse_follow_log(&raw);
        proof {
            if old(self).store().has_live_replica(who@) {
                assert(log.deep_view() == oldlog);
            }
        }
        if fold_is_followed(&log, whom) {
            return Err(TribblerError::AlreadyFollowing(who.to_owned(), whom.to_owned()));
        }
        let current = fold_following(&log);
        if current.len() >= crate::trib::MAX_FOLLOWING {
            proof {
                if follow_would_succeed(old(self).store(), who@, whom@) {
                    assert(current.deep_view().no_duplicates());
                    assert(current.deep_view().len() < crate::trib::MAX_FOLLOWING);
                }
            }
            return Err(TribblerError::FollowingTooMany);
        }
        let ghost key = compose_key_spec(who@, "follow_log"@);
        let ghost ri = old(self).store().read_from(who@);
        let ghost l0 = old(self).store().back_at(ri).list_of(key);
        let c = match self.bins.bin_clock(who, 0) {
            Err(e) => {
                return Err(e);
            },
            Ok(c) => c,
        };
        let ghost sc = self.bins;
        let event = FollowEvent { follow: true, clock: c, whom: whom.to_owned() };
        let enc = encode_follow(&event);
        match self.bins.bin_list_append(who, &KeyValue::new("follow_log", enc.as_str())) {
            Err(e) => {
                proof {
                    if follow_would_succeed(old(self).store(), who@, whom@) {
                        old(self).store().lemma_routing_same_config(sc, who@);
                        assert(false);
                    }
                }
                return Err(e);
            },
            Ok(_) => {},
        }
        proof {
            assert(old(self).store().has_live_replica(who@)) by {
                if !sc.has_live_replica(who@) {
                    assert(false);
                }
                old(self).store().lemma_routing_same_config(sc, who@);
            }
            old(self).store().lemma_routing_same_config(sc, who@);
            sc.lemma_read_sees_write(who@);
            assert(self.bins.back_at(ri).list_of(key) == l0.push(
                encode_follow_spec(FollowEventView { follow: true, clock: c, whom: whom@ }),
            ));
        }
        let raw2 = match self.bins.bin_list_get(who, "follow_log") {
            Err(e) => {
                proof {
                    if follow_would_succeed(old(self).store(), who@, whom@) {
                        assert(old(self).store().same_config(self.bins));
                        old(self).store().lemma_routing_same_config(self.bins, who@);
                        assert(false);
                    }
                }
                return Err(e);
            },
            Ok(l) => l,
        };
        let log2 = parse_follow_log(&raw2);
        proof {
            let ev = FollowEventView { follow: true, clock: c, whom: whom@ };
            lemma_parse_follow_log_snoc(l0, encode_follow_spec(ev));
            lemma_parse_follow_spec_round_trip(ev);
            assert(old(self).store().same_config(self.bins));
            old(self).store().lemma_routing_same_config(self.bins, who@);
            assert(raw2.0.deep_view() == self.bins.back_at(ri).list_of(key));
            assert(raw2.0.deep_view() == l0.push(encode_follow_spec(ev)));
            assert(log2.deep_view() == oldlog.push(ev));
            if follow_would_succeed(old(self).store(), who@, whom@) {
                let parsed2 = log2.deep_view();
                assert(c == old(self).store().back_at(ri).clock_of());
                assert forall|f: FollowEventView| #[trigger]
                    parsed2.contains(f) && f.whom == whom@ implies (f.clock < ev.clock || (
                f.clock == ev.clock && f.follow)) by {
                    let x = choose|x: int| 0 <= x < parsed2.len() && parsed2[x] == f;
                    if x < oldlog.len() {
                        assert(oldlog[x] == f);
                        assert(oldlog.contains(f));
                    } else {
                        assert(f == ev);
                    }
                }
                assert(parsed2.contains(ev)) by {
                    assert(parsed2[parsed2.len() - 1] == ev);
                }
                assert(is_followed(parsed2, whom@));
            }
        }
        if fold_is_followed(&log2, whom) {
            Ok(())
        } else {
            Err(TribblerError::AlreadyFollowing(who.to_owned(), whom.to_owned()))
        }
    }

    /// Makes `who` stop following `whom`.
    pub fn unfollow(&mut self, who: &str, whom: &str) -> (r: Result<(), TribblerError>)
        requires
            old(self).wf(),
        ensures
            final(self).wf(),
            who@ == whom@ <==> (r matches Err(e) && e matches TribblerError::WhoWhom(_)),
            who@ == whom@ ==> *final(self) == *old(self),
            who@ != whom@ && old(self).store().has_live_replica(who@) && old(
                self,
            ).store().back_at(old(self).store().read_from(who@)).kv_of(
                compose_key_spec(who@, "signup"@),
            ) is None ==> (r matches Err(e) && e matches TribblerError::UserDoesNotExist(_)),
            r is Ok ==> ({
                let key = compose_key_spec(who@, "follow_log"@);
                let i = old(self).store().read_from(who@);
                &&& old(self).store().has_live_replica(who@)
                &&& exists|c: u64|
                    final(self).store().back_at(i).list_of(key) == old(self).store().back_at(
                        i,
                    ).list_of(key).push(
                        #[trigger] encode_follow_spec(
                            FollowEventView { follow: false, clock: c, whom: whom@ },
                        ),
                    )
            }),
            unfollow_would_succeed(old(self).store(), who@, whom@) ==> r is Ok,
    {
        let ghost oldlog = stored_follow_log(old(self).store(), who@);
        if str_eq(who, whom) {
            return Err(TribblerError::WhoWhom(who.to_owned()));
        }
        match self.check_exists(who) {
            Err(e) => {
                return Err(e);
            },
            Ok(_) => {},
        }
        match self.check_exists(whom) {
            Err(e) => {
                return Err(e);
            },
            Ok(_) => {},
        }
        let raw = match self.bins.bin_list_get(who, "follow_log") {
            Err(e) => {
                return Err(e);
            },
            Ok(l) => l,
        };
        let log = parse_follow_log(&raw);
        proof {
            if old(self).store().has_live_replica(who@) {
                assert(log.deep_view() == oldlog);
            }
        }
        if !fold_is_followed(&log, whom) {
            return Err(TribblerError::NotFollowing(who.to_owned(), whom.to_owned()));
        }
        let ghost key = compose_key_spec(who@, "follow_log"@);
        let ghost ri = old(self).store().read_from(who@);
        let ghost l0 = old(self).store().back_at(ri).list_of(key);
        let c = match self.bins.bin_clock(who, 0) {
            Err(e) => {
                return Err(e);
            },
            Ok(c) => c,
        };
        let ghost sc = self.bins;
        let event = FollowEvent { follow: false, clock: c, whom: whom.to_owned() };
        let enc = encode_follow(&event);
        match self.bins.bin_list_append(who, &KeyValue::new("follow_log", enc.as_str())) {
            Err(e) => {
                proof {
                    if unfollow_would_succeed(old(self).store(), who@, whom@) {
                        old(self).store().lemma_routing_same_config(sc, who@);
                        assert(false);
                    }
                }
                return Err(e);
            },
            Ok(_) => {},
        }
        proof {
            assert(old(self).store().has_live_replica(who@)) by {
                if !sc.has_live_replica(who@) {
                    assert(false);
                }
                old(self).store().lemma_routing_same_config(sc, who@);
            }
            old(self).store().lemma_routing_same_config(sc, who@);
            sc.lemma_read_sees_write(who@);
            assert(self.bins.back_at(ri).list_of(key) == l0.push(
                encode_follow_spec(FollowEventView { follow: false, clock: c, whom: whom@ }),
            ));
        }
        let raw2 = match self.bins.bin_list_get(who, "follow_log") {
            Err(e) => {
                proof {
                    if unfollow_would_succeed(old(self).store(), who@, whom@) {
                        assert(old(self).store().same_config(self.bins));
                        old(self).store().lemma_routing_same_config(self.bins, who@);
                        assert(false);
                    }
                }
                return Err(e);
            },
            Ok(l) => l,
        };
        let log2 = parse_follow_log(&raw2);
        proof {
            let ev = FollowEventView { follow: false, clock: c, whom: whom@ };
            lemma_parse_follow_log_snoc(l0, encode_follow_spec(ev));
            lemma_parse_follow_spec_round_trip(ev);
            assert(old(self).store().same_config(self.bins));
            old(self).store().lemma_routing_same_config(self.bins, who@);
            assert(raw2.0.deep_view() == self.bins.back_at(ri).list_of(key));
            assert(raw2.0.deep_view() == l0.push(encode_follow_spec(ev)));
            assert(log2.deep_view() == oldlog.push(ev));
            if unfollow_would_succeed(old(self).store(), who@, whom@) {
                let parsed2 = log2.deep_view();
                assert(c == old(self).store().back_at(ri).clock_of());
                assert(!is_followed(parsed2, whom@)) by {
                    if is_followed(parsed2, whom@) {
                        let e2 = choose|e2: FollowEventView|
                            #![trigger parsed2.contains(e2)]
                            parsed2.contains(e2) && e2.whom == whom@ && e2.follow && (forall|
                                f: FollowEventView,
                            |
                                #![trigger parsed2.contains(f)]
                                parsed2.contains(f) && f.whom == whom@ ==> (f.clock < e2.clock
                                    || (f.clock == e2.clock && f.follow)));
                        assert(parsed2.contains(ev)) by {
                            assert(parsed2[parsed2.len() - 1] == ev);
                        }
                        assert(ev.clock < e2.clock || (ev.clock == e2.clock && ev.follow));
                        let x = choose|x: int| 0 <= x < parsed2.len() && parsed2[x] == e2;
                        assert(x < oldlog.len()) by {
                            if x == oldlog.len() {
                                assert(e2 == ev);
                            }
                        }
                        assert(oldlog[x] == e2);
                        assert(oldlog.contains(e2));
                        assert(e2.clock < c);
                        assert(false);
                    }
                }
            }
        }
        if !fold_is_followed(&log2, whom) {
            Ok(())
        } else {
            Err(TribblerError::NotFollowing(who.to_owned(), whom.to_owned()))
        }
    }

    /// Whether `who` currently follows `whom`.
    pub fn is_following(&mut self, who: &str, whom: &str) -> (r: Result<bool, TribblerError>)
        requires
            old(self).wf(),
        ensures
            final(self).wf(),
            *final(self) == *old(self),
            who@ == whom@ <==> (r matches Err(e) && e matches TribblerError::WhoWhom(_)),
            who@ != whom@ && old(self).store().has_live_replica(who@) && old(
                self,
            ).store().back_at(old(self).store().read_from(who@)).kv_of(
                compose_key_spec(who@, "signup"@),
            ) is None ==> (r matches Err(e) && e matches TribblerError::UserDoesNotExist(_)),
            who@ != whom@ && user_present(old(self).store(), who@) && user_present(
                old(self).store(),
                whom@,
            ) ==> r is Ok,
            r matches Ok(b) ==> b == is_followed(
                parse_follow_log_spec(
                    old(self).store().back_at(old(self).store().read_from(who@)).list_of(
                        compose_key_spec(who@, "follow_log"@),
                    ),
                ),
                whom@,
            ),
    {
        if str_eq(who, whom) {
            return Err(TribblerError::WhoWhom(who.to_owned()));
        }
        match self.check_exists(who) {
            Err(e) => {
                return Err(e);
            },
            Ok(_) => {},
        }
        match self.check_exists(whom) {
            Err(e) => {
                return Err(e);
            },
            Ok(_) => {},
        }
        let raw = match self.bins.bin_list_get(who, "follow_log") {
            Err(e) => {
                return Err(e);
            },
            Ok(l) => l,
        };
        let log = parse_follow_log(&raw);
        Ok(fold_is_followed(&log, whom))
    }

    /// The users `who` currently follows.
    pub fn following(&mut self, who: &str) -> (r: Result<Vec<String>, TribblerError>)
        requires
            old(self).wf(),
        ensures
            final(self).wf(),
            *final(self) == *old(self),
            old(self).store().has_live_replica(who@) && old(self).store().back_at(
                old(self).store().read_from(who@),
            ).kv_of(compose_key_spec(who@, "signup"@)) is None ==> (r matches Err(e)
                && e matches TribblerError::UserDoesNotExist(_)),
            user_present(old(self).store(), who@) ==> r is Ok,
            r matches Ok(l) ==> l.deep_view().no_duplicates() && forall|w: Seq<char>| #[trigger]
                l.deep_view().contains(w) <==> is_followed(
                    parse_follow_log_spec(
                        old(self).store().back_at(old(self).store().read_from(who@)).list_of(
                            compose_key_spec(who@, "follow_log"@),
                        ),
                    ),
                    w,
                ),
    {
        match self.check_exists(who) {
            Err(e) => {
                return Err(e);
            },
            Ok(_) => {},
        }
        let raw = match self.bins.bin_list_get(who, "follow_log") {
            Err(e) => {
                return Err(e);
            },
            Ok(l) => l,
        };
        let log = parse_follow_log(&raw);
        Ok(fold_following(&log))
    }

    /// The merged timeline of `user` and everyone they follow, in
    /// Tribble Order: the newest window of the posts drawn from the
    /// user's own bin and every followed user's bin.
    pub fn home(&mut self, user: &str) -> (r: Result<Vec<Trib>, TribblerError>)
        requires
            old(self).wf(),
        ensures
            final(self).wf(),
            *final(self) == *old(self),
            old(self).store().has_live_replica(user@) && old(self).store().back_at(
                old(self).store().read_from(user@),
            ).kv_of(compose_key_spec(user@, "signup"@)) is None ==> (r matches Err(e)
                && e matches TribblerError::UserDoesNotExist(_)),
            user_present(old(self).store(), user@) ==> r is Ok,
            r matches Ok(l) ==> exists|names: Seq<Seq<char>>|
                (forall|w: Seq<char>| #[trigger]
                    names.contains(w) <==> (is_followed(
                        parse_follow_log_spec(
                            old(self).store().back_at(
                                old(self).store().read_from(user@),
                            ).list_of(compose_key_spec(user@, "follow_log"@)),
                        ),
                        w,
                    ) || w == user@)) && fetch_window(
                    #[trigger] home_pool(old(self).store(), names),
                    l.deep_view(),
                ),
    {
        match self.check_exists(user) {
            Err(e) => {
                return Err(e);
            },
            Ok(_) => {},
        }
        let raw = match self.bins.bin_list_get(user, "follow_log") {
            Err(e) => {
                return Err(e);
            },
            Ok(l) => l,
        };
        let log = parse_follow_log(&raw);
        let mut sources = fold_following(&log);
        let ghost folded = sources.deep_view();
        sources.push(user.to_owned());
        let ghost names = sources.deep_view();
        proof {
            assert(names =~= folded.push(user@));
            assert forall|w: Seq<char>| #[trigger]
                names.contains(w) <==> (is_followed(log.deep_view(), w) || w == user@) by {
                if names.contains(w) {
                    let x = choose|x: int| 0 <= x < names.len() && names[x] == w;
                    if x < folded.len() {
                        assert(folded[x] == w);
                        assert(folded.contains(w));
                    }
                }
                if folded.contains(w) {
                    let x = choose|x: int| 0 <= x < folded.len() && folded[x] == w;
                    assert(names[x] == w);
                }
                if w == user@ {
                    assert(names[names.len() - 1] == w);
                }
            }
            assert(names.subrange(0, 0) =~= Seq::<Seq<char>>::empty());
        }
        let ghost s0 = self.bins;
        let mut all: Vec<Trib> = Vec::new();
        let mut i: usize = 0;
        while i < sources.len()
            invariant
                self.bins == s0,
                self.bins.wf(),
                sources.deep_view() == names,
                sources@.len() == names.len(),
                i <= names.len(),
                all.deep_view() == home_pool(s0, names.subrange(0, i as int)),
            decreases names.len() - i,
        {
            proof {
                assert(names.subrange(0, i + 1) =~= names.subrange(0, i as int).push(
                    names[i as int],
                ));
                lemma_home_pool_snoc(s0, names.subrange(0, i as int), names[i as int]);
                assert(names[i as int] == sources@[i as int]@);
            }
            let ghost adv = all.deep_view();
            match self.bins.bin_list_get(sources[i].as_str(), "posts") {
                Err(_) => {
                    proof {
                        assert(!s0.has_live_replica(names[i as int]));
                        assert(posts_of(s0, names[i as int]) =~= Seq::<TribView>::empty());
                        assert(all.deep_view() =~= adv + posts_of(s0, names[i as int]));
                    }
                },
                Ok(raw_posts) => {
                    proof {
                        assert(s0.has_live_replica(names[i as int]));
                    }
                    let mut parsed = parse_tribs(&raw_posts);
                    all.append(&mut parsed);
                    proof {
                        assert(all.deep_view() =~= adv + posts_of(s0, names[i as int]));
                    }
                },
            }
            i = i + 1;
        }
        proof {
            assert(names.subrange(0, names.len() as int) =~= names);
        }
        Ok(order_and_trim(all))
    }

    /// Errs unless the user's `signup` cell is set.
    fn check_exists(&mut self, user: &str) -> (r: Result<(), TribblerError>)
        requires
            old(self).wf(),
        ensures
            final(self).wf(),
            *final(self) == *old(self),
            r matches Err(e) ==> (e matches TribblerError::RpcError(_) || e matches
                TribblerError::UserDoesNotExist(_)),
            r is Ok <==> user_present(old(self).store(), user@),
            old(self).store().has_live_replica(user@) && old(self).store().back_at(
                old(self).store().read_from(user@),
            ).kv_of(compose_key_spec(user@, "signup"@)) is None ==> (r matches Err(e)
                && e matches TribblerError::UserDoesNotExist(_)),
    {
        match self.bins.bin_get(user, "signup") {
            Err(e) => Err(e),
            Ok(None) => Err(TribblerError::UserDoesNotExist(user.to_owned())),
            Ok(Some(_)) => Ok(()),
        }
    }
}

/// Whether a user is registered as far as a front-end can see: some
/// replica of their bin is live and the signup cell is set at the one
/// reads come from.
pub open spec fn user_present(s: BinStore, user: Seq<char>) -> bool {
    s.has_live_replica(user) && s.back_at(s.read_from(user)).kv_of(
        compose_key_spec(user, "signup"@),
    ) is Some
}

/// The parsed posts of one user's bin, as a read sees them: empty when
/// no replica is live.
pub open spec fn posts_of(s: BinStore, name: Seq<char>) -> Seq<TribView> {
    if s.has_live_replica(name) {
        parse_tribs_spec(
            s.back_at(s.read_from(name)).list_of(compose_key_spec(name, "posts"@)),
        )
    } else {
        Seq::empty()
    }
}

/// The combined parsed posts of the named users' bins, in list order.
pub open spec fn home_pool(s: BinStore, names: Seq<Seq<char>>) -> Seq<TribView>
    decreases names.len(),
{
    if names.len() == 0 {
        Seq::empty()
    } else {
        posts_of(s, names[0]) + home_pool(s, names.drop_first())
    }
}

/// Walking one more name appends that user's posts.
proof fn lemma_home_pool_snoc(s: BinStore, names: Seq<Seq<char>>, nm: Seq<char>)
    ensures
        home_pool(s, names.push(nm)) == home_pool(s, names) + posts_of(s, nm),
    decreases names.len(),
{
    if names.len() == 0 {
        assert(names.push(nm)[0] == nm);
        assert(names.push(nm).drop_first() =~= Seq::<Seq<char>>::empty());
        assert(home_pool(s, Seq::<Seq<char>>::empty()) =~= Seq::<TribView>::empty());
        assert(names =~= Seq::<Seq<char>>::empty());
        assert(home_pool(s, names.push(nm)) == posts_of(s, nm) + home_pool(
            s,
            names.push(nm).drop_first(),
        ));
        assert(home_pool(s, names.push(nm)) =~= home_pool(s, names) + posts_of(s, nm));
    } else {
        assert(names.push(nm)[0] == names[0]);
        assert(names.push(nm).drop_first() =~= names.drop_first().push(nm));
        lemma_home_pool_snoc(s, names.drop_first(), nm);
        assert(home_pool(s, names.push(nm)) =~= home_pool(s, names) + posts_of(s, nm));
    }
}

/// The stored follow log of a user's bin, parsed, as a read sees it.
pub open spec fn stored_follow_log(s: BinStore, who: Seq<char>) -> Seq<FollowEventView> {
    parse_follow_log_spec(
        s.back_at(s.read_from(who)).list_of(compose_key_spec(who, "follow_log"@)),
    )
}

/// When a follow call owes success: both users are present, the target
/// is not yet followed, the follow set is below the cap, and every
/// stored entry's clock lies below the bin's clock — which holds of
/// every log this service wrote, since each entry's clock was issued by
/// that clock.
pub open spec fn follow_would_succeed(s: BinStore, who: Seq<char>, whom: Seq<char>) -> bool {
    let log = stored_follow_log(s, who);
    &&& who != whom
    &&& user_present(s, who)
    &&& user_present(s, whom)
    &&& !is_followed(log, whom)
    &&& (forall|names: Seq<Seq<char>>|
        #![trigger names.no_duplicates()]
        (names.no_duplicates() && (forall|w: Seq<char>| #[trigger]
            names.contains(w) <==> is_followed(log, w))) ==> names.len()
            < crate::trib::MAX_FOLLOWING)
    &&& (forall|e: FollowEventView| #[trigger]
        log.contains(e) ==> e.clock < s.back_at(s.read_from(who)).clock_of())
}

/// When an unfollow call owes success: both users are present, the
/// target is currently followed, and the stored clocks lie below the
/// bin's clock, as they do in every log this service wrote.
pub open spec fn unfollow_would_succeed(s: BinStore, who: Seq<char>, whom: Seq<char>) -> bool {
    let log = stored_follow_log(s, who);
    &&& who != whom
    &&& user_present(s, who)
    &&& user_present(s, whom)
    &&& is_followed(log, whom)
    &&& (forall|e: FollowEventView| #[trigger]
        log.contains(e) ==> e.clock < s.back_at(s.read_from(who)).clock_of())
}

/// Every entry of a raw list, unescaped.
pub open spec fn unescape_all(l: Seq<Seq<char>>) -> Seq<Seq<char>> {
    Seq::new(l.len(), |i: int| crate::colon::unescape_seq(l[i]))
}

/// Unescapes every entry of a raw list.
fn unescape_entries(raw: &crate::storage::List) -> (r: Vec<String>)
    ensures
        r.deep_view() == unescape_all(raw.0.deep_view()),
{
    let mut out: Vec<String> = Vec::new();
    let mut i: usize = 0;
    while i < raw.0.len()
        invariant
            i <= raw.0@.len(),
            out@.len() == i,
            forall|j: int|
                0 <= j < i ==> #[trigger] out.deep_view()[j] == crate::colon::unescape_seq(
                    raw.0.deep_view()[j],
                ),
        decreases raw.0@.len() - i,
    {
        let ghost odv = out.deep_view();
        let u = unescape(raw.0[i].as_str());
        let ghost uv = u@;
        out.push(u);
        proof {
            assert(out.deep_view() =~= odv.push(uv));
            assert(raw.0.deep_view()[i as int] == raw.0@[i as int]@);
        }
        i = i + 1;
    }
    proof {
        assert(out.deep_view() =~= unescape_all(raw.0.deep_view()));
    }
    out
}

/// A registry answer selected from a pool is its own selection: it is
/// already sorted, duplicate-free, within the cap, and drawn from
/// itself with nothing out of order.
proof fn lemma_selected_from_idempotent(names: Seq<Seq<char>>, out: Seq<Seq<char>>)
    requires
        selected_from(names, out),
    ensures
        selected_from(out, out),
{
    assert forall|m: int| 0 <= m < out.len() implies out.contains(#[trigger] out[m]) by {
    }
    assert forall|w: Seq<char>| #[trigger] out.contains(w) implies out.contains(w) by {
    }
}

/// What the registry answer is for a pool of names: sorted ascending,
/// duplicate-free, at most [`crate::trib::MIN_LIST_USER`] entries, all
/// drawn from the pool, no kept name sorting after a dropped one, and
/// nothing dropped while there is room.
pub open spec fn selected_from(names: Seq<Seq<char>>, out: Seq<Seq<char>>) -> bool {
    &&& (forall|m1: int, m2: int|
        0 <= m1 < m2 < out.len() ==> crate::strutil::lex_le(
            #[trigger] out[m1],
            #[trigger] out[m2],
        ))
    &&& out.no_duplicates()
    &&& out.len() <= crate::trib::MIN_LIST_USER
    &&& (forall|m: int| 0 <= m < out.len() ==> names.contains(#[trigger] out[m]))
    &&& (forall|w: Seq<char>|
        names.contains(w) && !out.contains(w) ==> (forall|m: int|
            0 <= m < out.len() ==> crate::strutil::lex_le(#[trigger] out[m], w)))
    &&& (out.len() == crate::trib::MIN_LIST_USER || forall|w: Seq<char>| #[trigger]
        names.contains(w) ==> out.contains(w))
}

/// Dedupes, sorts, and truncates a name list to the registry answer.
fn select_users(names: &Vec<String>) -> (r: Vec<String>)
    ensures
        selected_from(names.deep_view(), r.deep_view()),
{
    broadcast use vstd::seq_lib::group_to_multiset_ensures;

    let ghost ndv = names.deep_view();
    let mut uniq: Vec<String> = Vec::new();
    let mut i: usize = 0;
    while i < names.len()
        invariant
            names.deep_view() == ndv,
            names@.len() == ndv.len(),
            i <= ndv.len(),
            uniq.deep_view().no_duplicates(),
            forall|w: Seq<char>| #[trigger]
                uniq.deep_view().contains(w) <==> exists|j: int|
                    0 <= j < i && #[trigger] ndv[j] == w,
        decreases ndv.len() - i,
    {
        let ghost udv = uniq.deep_view();
        proof {
            assert(ndv[i as int] == names@[i as int]@);
        }
        if !holds_string(&uniq, names[i].as_str()) {
            uniq.push(names[i].clone());
            proof {
                assert(uniq.deep_view() =~= udv.push(ndv[i as int]));
                assert forall|m: int, n: int|
                    0 <= m < n < uniq.deep_view().len() implies uniq.deep_view()[m] != uniq
                    .deep_view()[n] by {
                    if n == udv.len() {
                        assert(uniq.deep_view()[m] == udv[m]);
                        assert(udv.contains(udv[m]));
                    }
                }
                assert forall|w: Seq<char>| #[trigger]
                    uniq.deep_view().contains(w) <==> exists|j: int|
                        0 <= j < i + 1 && #[trigger] ndv[j] == w by {
                    let nv = uniq.deep_view();
                    if nv.contains(w) {
                        let x = choose|x: int| 0 <= x < nv.len() && nv[x] == w;
                        if x < udv.len() {
                            assert(udv[x] == w);
                            assert(udv.contains(w));
                        } else {
                            assert(ndv[i as int] == w);
                        }
                    }
                    if exists|j: int| 0 <= j < i + 1 && #[trigger] ndv[j] == w {
                        let j = choose|j: int| 0 <= j < i + 1 && #[trigger] ndv[j] == w;
                        if j < i {
                            assert(udv.contains(w));
                            let x = choose|x: int| 0 <= x < udv.len() && udv[x] == w;
                            assert(nv[x] == w);
                        } else {
                            assert(nv[nv.len() - 1] == w);
                        }
                    }
                }
            }
        } else {
            proof {
                assert forall|w: Seq<char>| #[trigger]
                    uniq.deep_view().contains(w) <==> exists|j: int|
                        0 <= j < i + 1 && #[trigger] ndv[j] == w by {
                    if exists|j: int| 0 <= j < i + 1 && #[trigger] ndv[j] == w {
                        let j = choose|j: int| 0 <= j < i + 1 && #[trigger] ndv[j] == w;
                        if j == i {
                            assert(uniq.deep_view().contains(ndv[i as int]));
                        }
                    }
                }
            }
        }
        i = i + 1;
    }
    proof {
        assert forall|w: Seq<char>| #[trigger]
            uniq.deep_view().contains(w) <==> ndv.contains(w) by {
            if ndv.contains(w) {
                let j = choose|j: int| 0 <= j < ndv.len() && ndv[j] == w;
            }
        }
    }
    let mut sorted = crate::strutil::sort_strings(&uniq);
    let ghost sdv = sorted.deep_view();
    proof {
        uniq.deep_view().lemma_multiset_has_no_duplicates();
        sdv.lemma_multiset_has_no_duplicates_conv();
        assert forall|w: Seq<char>| #[trigger] sdv.contains(w) == ndv.contains(w) by {
            assert(sdv.contains(w) <==> sdv.to_multiset().count(w) > 0);
            assert(uniq.deep_view().contains(w) <==> uniq.deep_view().to_multiset().count(w)
                > 0);
        }
    }
    if sorted.len() > crate::trib::MIN_LIST_USER {
        sorted.truncate(crate::trib::MIN_LIST_USER);
        proof {
            assert(sorted.deep_view() =~= sdv.subrange(
                0,
                crate::trib::MIN_LIST_USER as int,
            ));
            let odv = sorted.deep_view();
            assert forall|m: int, n: int|
                0 <= m < n < odv.len() implies odv[m] != odv[n] by {
                assert(odv[m] == sdv[m] && odv[n] == sdv[n]);
            }
            assert forall|m: int, n: int|
                0 <= m < n < odv.len() implies crate::strutil::lex_le(
                #[trigger] odv[m],
                #[trigger] odv[n],
            ) by {
                assert(odv[m] == sdv[m] && odv[n] == sdv[n]);
            }
            assert forall|m: int| 0 <= m < odv.len() implies ndv.contains(
                #[trigger] odv[m],
            ) by {
                assert(odv[m] == sdv[m]);
                assert(sdv.contains(sdv[m]));
            }
            assert forall|w: Seq<char>|
                ndv.contains(w) && !odv.contains(w) implies (forall|m: int|
                0 <= m < odv.len() ==> crate::strutil::lex_le(#[trigger] odv[m], w)) by {
                assert(sdv.contains(w));
                let x = choose|x: int| 0 <= x < sdv.len() && sdv[x] == w;
                assert(x >= odv.len()) by {
                    if x < odv.len() {
                        assert(odv[x] == sdv[x]);
                        assert(odv.contains(w));
                    }
                }
                assert forall|m: int|
                    0 <= m < odv.len() implies crate::strutil::lex_le(
                    #[trigger] odv[m],
                    w,
                ) by {
                    assert(odv[m] == sdv[m]);
                }
            }
        }
    } else {
        proof {
            let odv = sorted.deep_view();
            assert(odv =~= sdv);
            assert forall|m: int| 0 <= m < odv.len() implies ndv.contains(
                #[trigger] odv[m],
            ) by {
                assert(sdv.contains(sdv[m]));
            }
        }
    }
    sorted
}

/// Removing one more value composes on the right.
proof fn lemma_remove_values_snoc(l: Seq<Seq<char>>, vs: Seq<Seq<char>>, v: Seq<char>)
    ensures
        remove_values(l, vs.push(v)) == crate::storage::remove_all(remove_values(l, vs), v),
    decreases vs.len(),
{
    if vs.len() == 0 {
        assert(vs.push(v)[0] == v);
        assert(vs.push(v).drop_first() =~= Seq::<Seq<char>>::empty());
        assert(remove_values(crate::storage::remove_all(l, v), Seq::<Seq<char>>::empty())
            == crate::storage::remove_all(l, v));
        assert(remove_values(l, vs) == l);
    } else {
        assert(vs.push(v)[0] == vs[0]);
        assert(vs.push(v).drop_first() =~= vs.drop_first().push(v));
        lemma_remove_values_snoc(crate::storage::remove_all(l, vs[0]), vs.drop_first(), v);
    }
}

} // verus!
