//! A single-node reference implementation of the Tribbler service.
//!
//! All state lives in one process: a map from user name to [`User`], a
//! map from user name to a pre-built home timeline, and one global
//! sequence counter.  Every operation's contract classifies its errors
//! exactly and pins the state change down pointwise over the lookup
//! functions.
use crate::err::TribblerError;
use crate::storage::{
    assoc_distinct, assoc_find, assoc_lookup, lemma_assoc_first_match,
    lemma_assoc_lookup_absent, lemma_assoc_lookup_push_back, lemma_assoc_remove,
    lemma_assoc_some_iff, remove_all,
};
use crate::strutil::str_eq;
use crate::trib::{Trib, TribView, MAX_TRIB_FETCH};
use vstd::prelude::*;

verus! {

/// Per-user state: who they follow, who follows them, and their posts,
/// both raw and paired with the global sequence number of the post.
pub struct User {
    following: Vec<String>,
    followers: Vec<String>,
    seq_tribs: Vec<(u64, Trib)>,
    tribs: Vec<Trib>,
}

/// The mathematical image of a [`User`].
pub struct UserView {
    /// names this user follows
    pub following: Seq<Seq<char>>,
    /// names following this user
    pub followers: Seq<Seq<char>>,
    /// posts paired with their global sequence numbers
    pub seq_tribs: Seq<(u64, TribView)>,
    /// posts in append order
    pub tribs: Seq<TribView>,
}

impl DeepView for User {
    type V = UserView;

    closed spec fn deep_view(&self) -> UserView {
        UserView {
            following: self.following.deep_view(),
            followers: self.followers.deep_view(),
            seq_tribs: self.seq_tribs.deep_view(),
            tribs: self.tribs.deep_view(),
        }
    }
}

/// The clock floor a post call demands: one past the caller's seen
/// clock, saturating at the maximum.
pub open spec fn clock_bump(c: u64) -> u64 {
    if c < u64::MAX {
        (c + 1) as u64
    } else {
        u64::MAX
    }
}

/// The state change a successful post makes: the record with clock `c`
/// and posting time `t` joins the poster's trimmed log and every
/// existing home timeline of the poster and their followers.
pub open spec fn post_effect(
    pre: RefServer,
    post_state: RefServer,
    who: Seq<char>,
    msg: Seq<char>,
    c: u64,
    t: u64,
) -> bool {
    let tv = TribView { user: who, message: msg, time: t, clock: c };
    let u = pre.user_of(who).unwrap();
    &&& (forall|nm: Seq<char>| #[trigger]
        post_state.user_of(nm) == if nm == who {
            Some(
                UserView {
                    following: u.following,
                    followers: u.followers,
                    seq_tribs: u.seq_tribs.push((c, tv)),
                    tribs: crate::trib::gc_window(u.tribs.push(tv)),
                },
            )
        } else {
            pre.user_of(nm)
        })
    &&& (forall|nm: Seq<char>| #[trigger]
        post_state.home_of(nm) == if (nm == who || u.followers.contains(nm)) && pre.home_of(nm)
            is Some {
            Some(pre.home_of(nm).unwrap().push(tv))
        } else {
            pre.home_of(nm)
        })
}

/// Every stored post clock of the view lies strictly below `s`.
pub open spec fn user_clocks_below(u: UserView, s: u64) -> bool {
    &&& forall|i: int| 0 <= i < u.tribs.len() ==> (#[trigger] u.tribs[i]).clock < s
    &&& forall|i: int| 0 <= i < u.seq_tribs.len() ==> (#[trigger] u.seq_tribs[i]).0 < s
}

/// [`user_clocks_below`] carries over to any view with the same post
/// logs, and upward to any larger bound.
pub proof fn lemma_clocks_below_carry(a: UserView, b: UserView, s1: u64, s2: u64)
    requires
        user_clocks_below(a, s1),
        b.seq_tribs == a.seq_tribs,
        b.tribs == a.tribs,
        s1 <= s2,
    ensures
        user_clocks_below(b, s2),
{
    assert forall|i: int|
        0 <= i < b.tribs.len() implies (#[trigger] b.tribs[i]).clock < s2 by {
        assert(b.tribs[i] == a.tribs[i]);
    }
    assert forall|i: int|
        0 <= i < b.seq_tribs.len() implies (#[trigger] b.seq_tribs[i]).0 < s2 by {
        assert(b.seq_tribs[i] == a.seq_tribs[i]);
    }
}

/// The clock discipline of a user's stored posts: every
/// sequence-numbered post carries its own clock as the number, and post
/// clocks strictly ascend in both logs.
pub open spec fn posts_wf(u: UserView) -> bool {
    &&& forall|i: int|
        0 <= i < u.seq_tribs.len() ==> (#[trigger] u.seq_tribs[i]).0 == u.seq_tribs[i].1.clock
    &&& forall|i: int, j: int|
        0 <= i < j < u.tribs.len() ==> (#[trigger] u.tribs[i]).clock < (
        #[trigger] u.tribs[j]).clock
    &&& forall|i: int, j: int|
        0 <= i < j < u.seq_tribs.len() ==> (#[trigger] u.seq_tribs[i]).0 < (
        #[trigger] u.seq_tribs[j]).0
}

/// [`posts_wf`] carries over to any view with the same post logs.
pub proof fn lemma_posts_wf_carry(a: UserView, b: UserView)
    requires
        posts_wf(a),
        b.seq_tribs == a.seq_tribs,
        b.tribs == a.tribs,
    ensures
        posts_wf(b),
{
    assert forall|i: int|
        0 <= i < b.seq_tribs.len() implies (#[trigger] b.seq_tribs[i]).0 == b.seq_tribs[
        i].1.clock by {
        assert(b.seq_tribs[i] == a.seq_tribs[i]);
    }
    assert forall|i: int, j: int|
        0 <= i < j < b.tribs.len() implies (#[trigger] b.tribs[i]).clock < (
    #[trigger] b.tribs[j]).clock by {
        assert(b.tribs[i] == a.tribs[i]);
        assert(b.tribs[j] == a.tribs[j]);
    }
    assert forall|i: int, j: int|
        0 <= i < j < b.seq_tribs.len() implies (#[trigger] b.seq_tribs[i]).0 < (
    #[trigger] b.seq_tribs[j]).0 by {
        assert(b.seq_tribs[i] == a.seq_tribs[i]);
        assert(b.seq_tribs[j] == a.seq_tribs[j]);
    }
}

impl User {
    /// Well-formedness: neither membership list repeats a name, and the
    /// stored posts keep the clock discipline of [`posts_wf`].
    pub open spec fn wf(self) -> bool {
        &&& self.deep_view().following.no_duplicates()
        &&& self.deep_view().followers.no_duplicates()
        &&& posts_wf(self.deep_view())
    }

    /// Creates a user with no posts and no connections.
    pub fn new() -> (u: User)
        ensures
            u.wf(),
            u.deep_view().following == Seq::<Seq<char>>::empty(),
            u.deep_view().followers == Seq::<Seq<char>>::empty(),
            u.deep_view().seq_tribs == Seq::<(u64, TribView)>::empty(),
            u.deep_view().tribs == Seq::<TribView>::empty(),
    {
        let u = User {
            following: Vec::new(),
            followers: Vec::new(),
            seq_tribs: Vec::new(),
            tribs: Vec::new(),
        };
        proof {
            assert(u.deep_view().following =~= Seq::<Seq<char>>::empty());
            assert(u.deep_view().followers =~= Seq::<Seq<char>>::empty());
            assert(u.deep_view().seq_tribs =~= Seq::<(u64, TribView)>::empty());
            assert(u.deep_view().tribs =~= Seq::<TribView>::empty());
        }
        u
    }

    /// Whether this user follows `whom`.
    pub fn is_following(&self, whom: &str) -> (r: bool)
        ensures
            r == self.deep_view().following.contains(whom@),
    {
        contains_string(&self.following, whom)
    }

    /// Makes this user follow `whom`; following twice changes nothing.
    pub fn follow(&mut self, whom: &str)
        requires
            old(self).wf(),
        ensures
            final(self).wf(),
            final(self).deep_view().following == if old(self).deep_view().following.contains(
                whom@,
            ) {
                old(self).deep_view().following
            } else {
                old(self).deep_view().following.push(whom@)
            },
            final(self).deep_view().followers == old(self).deep_view().followers,
            final(self).deep_view().seq_tribs == old(self).deep_view().seq_tribs,
            final(self).deep_view().tribs == old(self).deep_view().tribs,
    {
        if !contains_string(&self.following, whom) {
            let ghost pre = self.following.deep_view();
            self.following.push(whom.to_owned());
            proof {
                assert(self.following.deep_view() =~= pre.push(whom@));
                assert forall|m: int, n2: int|
                    0 <= m < n2 < self.following.deep_view().len() implies self
                    .following.deep_view()[m] != self.following.deep_view()[n2] by {
                    if n2 == pre.len() {
                        assert(self.following.deep_view()[m] == pre[m]);
                        assert(pre.contains(pre[m]));
                    }
                }
            }
        }
        proof {
            lemma_posts_wf_carry(old(self).deep_view(), self.deep_view());
        }
    }

    /// Makes this user stop following `whom`.
    pub fn unfollow(&mut self, whom: &str)
        requires
            old(self).wf(),
        ensures
            final(self).wf(),
            final(self).deep_view().following == remove_all(
                old(self).deep_view().following,
                whom@,
            ),
            final(self).deep_view().followers == old(self).deep_view().followers,
            final(self).deep_view().seq_tribs == old(self).deep_view().seq_tribs,
            final(self).deep_view().tribs == old(self).deep_view().tribs,
    {
        let out = remove_string(&self.following, whom);
        self.following = out;
        proof {
            lemma_posts_wf_carry(old(self).deep_view(), self.deep_view());
            lemma_remove_all_no_dup(old(self).deep_view().following, whom@);
        }
    }

    /// Adds `who` to the follower list; adding twice changes nothing.
    pub fn add_follower(&mut self, who: &str)
        requires
            old(self).wf(),
        ensures
            final(self).wf(),
            final(self).deep_view().followers == if old(self).deep_view().followers.contains(
                who@,
            ) {
                old(self).deep_view().followers
            } else {
                old(self).deep_view().followers.push(who@)
            },
            final(self).deep_view().following == old(self).deep_view().following,
            final(self).deep_view().seq_tribs == old(self).deep_view().seq_tribs,
            final(self).deep_view().tribs == old(self).deep_view().tribs,
    {
        if !contains_string(&self.followers, who) {
            let ghost pre = self.followers.deep_view();
            self.followers.push(who.to_owned());
            proof {
                assert(self.followers.deep_view() =~= pre.push(who@));
                assert forall|m: int, n2: int|
                    0 <= m < n2 < self.followers.deep_view().len() implies self
                    .followers.deep_view()[m] != self.followers.deep_view()[n2] by {
                    if n2 == pre.len() {
                        assert(self.followers.deep_view()[m] == pre[m]);
                        assert(pre.contains(pre[m]));
                    }
                }
            }
        }
        proof {
            lemma_posts_wf_carry(old(self).deep_view(), self.deep_view());
        }
    }

    /// Takes `who` off the follower list.
    pub fn remove_follower(&mut self, who: &str)
        requires
            old(self).wf(),
        ensures
            final(self).wf(),
            final(self).deep_view().followers == remove_all(
                old(self).deep_view().followers,
                who@,
            ),
            final(self).deep_view().following == old(self).deep_view().following,
            final(self).deep_view().seq_tribs == old(self).deep_view().seq_tribs,
            final(self).deep_view().tribs == old(self).deep_view().tribs,
    {
        let out = remove_string(&self.followers, who);
        self.followers = out;
        proof {
            lemma_posts_wf_carry(old(self).deep_view(), self.deep_view());
            lemma_remove_all_no_dup(old(self).deep_view().followers, who@);
        }
    }

    /// How many followers this user has.
    pub fn followers_len(&self) -> (n: usize)
        ensures
            n == self.deep_view().followers.len(),
    {
        self.followers.len()
    }

    /// The follower at position `i`.
    pub fn follower_at(&self, i: usize) -> (r: String)
        requires
            i < self.deep_view().followers.len(),
        ensures
            r@ == self.deep_view().followers[i as int],
    {
        proof {
            assert(self.followers.deep_view()[i as int] == self.followers@[i as int]@);
        }
        self.followers[i].clone()
    }

    /// How many names this user follows.
    pub fn following_len(&self) -> (n: usize)
        ensures
            n == self.deep_view().following.len(),
    {
        self.following.len()
    }

    /// The followed name at position `i`.
    pub fn following_at(&self, i: usize) -> (r: String)
        requires
            i < self.deep_view().following.len(),
        ensures
            r@ == self.deep_view().following[i as int],
    {
        proof {
            assert(self.following.deep_view()[i as int] == self.following@[i as int]@);
        }
        self.following[i].clone()
    }

    /// A copy of this user's sequence-numbered posts.
    pub fn seq_tribs_clone(&self) -> (r: Vec<(u64, Trib)>)
        ensures
            r.deep_view() == self.deep_view().seq_tribs,
    {
        let mut out: Vec<(u64, Trib)> = Vec::new();
        let mut i: usize = 0;
        while i < self.seq_tribs.len()
            invariant
                i <= self.seq_tribs@.len(),
                out@.len() == i,
                forall|j: int|
                    0 <= j < i ==> out.deep_view()[j] == self.seq_tribs.deep_view()[j],
            decreases self.seq_tribs@.len() - i,
        {
            let ghost odv = out.deep_view();
            let e = &self.seq_tribs[i];
            out.push((e.0, e.1.clone()));
            proof {
                assert(out.deep_view() =~= odv.push(
                    (self.seq_tribs@[i as int].0, self.seq_tribs@[i as int].1.deep_view())));
                assert(self.seq_tribs.deep_view()[i as int] == (
                    self.seq_tribs@[i as int].0,
                    self.seq_tribs@[i as int].1.deep_view(),
                ));
            }
            i = i + 1;
        }
        proof {
            assert(out.deep_view() =~= self.seq_tribs.deep_view());
        }
        out
    }

    /// The names this user follows.
    pub fn list_following(&self) -> (r: Vec<String>)
        ensures
            r.deep_view() == self.deep_view().following,
    {
        clone_strings(&self.following)
    }

    /// Appends a new trib with the given clock and time, trims the post
    /// log to the garbage-collection window, and returns a copy of the
    /// trib.  The clock must exceed every clock already stored, which
    /// the server's own counter discipline guarantees.
    pub fn post(&mut self, who: &str, msg: &str, seq: u64, time: u64) -> (t: Trib)
        requires
            old(self).wf(),
            forall|i: int|
                0 <= i < old(self).deep_view().tribs.len() ==> (#[trigger] old(
                    self,
                ).deep_view().tribs[i]).clock < seq,
            forall|i: int|
                0 <= i < old(self).deep_view().seq_tribs.len() ==> (#[trigger] old(
                    self,
                ).deep_view().seq_tribs[i]).0 < seq,
        ensures
            final(self).wf(),
            t@ == (TribView { user: who@, message: msg@, time, clock: seq }),
            final(self).deep_view().tribs == crate::trib::gc_window(
                old(self).deep_view().tribs.push(t@),
            ),
            final(self).deep_view().seq_tribs == old(self).deep_view().seq_tribs.push((seq, t@)),
            final(self).deep_view().following == old(self).deep_view().following,
            final(self).deep_view().followers == old(self).deep_view().followers,
    {
        let trib = Trib { user: who.to_owned(), message: msg.to_owned(), time, clock: seq };
        let copy = trib.clone();
        let ghost pt = self.tribs.deep_view();
        let ghost ps = self.seq_tribs.deep_view();
        let second = trib.clone();
        self.tribs.push(trib);
        self.seq_tribs.push((seq, second));
        proof {
            assert(self.tribs.deep_view() =~= pt.push(copy@));
            assert(self.seq_tribs.deep_view() =~= ps.push((seq, copy@)));
        }
        if self.tribs.len() > 2 * MAX_TRIB_FETCH {
            let ghost full = self.tribs.deep_view();
            let cut = self.tribs.len() - MAX_TRIB_FETCH;
            let tail = self.tribs.split_off(cut);
            self.tribs = tail;
            proof {
                assert(self.tribs.deep_view() =~= full.subrange(
                    cut as int,
                    full.len() as int,
                ));
                assert(self.tribs.deep_view() =~= crate::trib::gc_window(pt.push(copy@)));
            }
        } else {
            proof {
                assert(self.tribs.deep_view() =~= crate::trib::gc_window(pt.push(copy@)));
            }
        }
        proof {
            let ndv = self.deep_view();
            let ost = old(self).deep_view().seq_tribs;
            let otr = old(self).deep_view().tribs;
            assert(ndv.seq_tribs == ost.push((seq, copy@)));
            assert(ndv.tribs == crate::trib::gc_window(otr.push(copy@)));
            assert forall|i: int|
                0 <= i < ndv.seq_tribs.len() implies (#[trigger] ndv.seq_tribs[i]).0 == ndv
                .seq_tribs[i].1.clock by {
                if i < ost.len() {
                    assert(ndv.seq_tribs[i] == ost[i]);
                } else {
                    assert(ndv.seq_tribs[i] == (seq, copy@));
                }
            }
            assert forall|i: int, j: int|
                0 <= i < j < ndv.seq_tribs.len() implies (#[trigger] ndv.seq_tribs[i]).0 < (
            #[trigger] ndv.seq_tribs[j]).0 by {
                assert(ndv.seq_tribs[i] == ost[i]);
                if j < ost.len() {
                    assert(ndv.seq_tribs[j] == ost[j]);
                } else {
                    assert(ndv.seq_tribs[j] == (seq, copy@));
                }
            }
            let pushed = otr.push(copy@);
            let off: int = if pushed.len() > 2 * MAX_TRIB_FETCH {
                pushed.len() - MAX_TRIB_FETCH
            } else {
                0
            };
            assert forall|i: int, j: int|
                0 <= i < j < ndv.tribs.len() implies (#[trigger] ndv.tribs[i]).clock < (
            #[trigger] ndv.tribs[j]).clock by {
                assert(ndv.tribs[i] == pushed[off + i]);
                assert(ndv.tribs[j] == pushed[off + j]);
                assert(pushed[off + i] == if off + i < otr.len() {
                    otr[off + i]
                } else {
                    copy@
                });
                assert(pushed[off + j] == if off + j < otr.len() {
                    otr[off + j]
                } else {
                    copy@
                });
            }
        }
        copy
    }

    /// The newest [`MAX_TRIB_FETCH`] of this user's tribs, oldest first:
    /// posting order, which by the clock discipline is also ascending
    /// Tribble Order.
    pub fn list_tribs(&self) -> (r: Vec<Trib>)
        requires
            self.wf(),
        ensures
            r.deep_view() == if self.deep_view().tribs.len() <= MAX_TRIB_FETCH {
                self.deep_view().tribs
            } else {
                self.deep_view().tribs.subrange(
                    self.deep_view().tribs.len() - MAX_TRIB_FETCH,
                    self.deep_view().tribs.len() as int,
                )
            },
            forall|m: int, n: int|
                0 <= m < n < r.deep_view().len() ==> (#[trigger] r.deep_view()[m]).clock < (
                #[trigger] r.deep_view()[n]).clock,
            forall|m: int, n: int|
                0 <= m < n < r.deep_view().len() ==> crate::trib::trib_le(
                    #[trigger] r.deep_view()[m],
                    #[trigger] r.deep_view()[n],
                ),
    {
        let n = self.tribs.len();
        let start = if n > MAX_TRIB_FETCH {
            n - MAX_TRIB_FETCH
        } else {
            0
        };
        let mut out: Vec<Trib> = Vec::new();
        let mut i = start;
        while i < n
            invariant
                start <= i <= n,
                n == self.tribs@.len(),
                out@.len() == i - start,
                forall|j: int|
                    0 <= j < out@.len() ==> out.deep_view()[j] == self.tribs.deep_view()[start
                        + j],
            decreases n - i,
        {
            let ghost odv = out.deep_view();
            out.push(self.tribs[i].clone());
            proof {
                assert(out.deep_view() =~= odv.push(self.tribs@[i as int].deep_view()));
                assert(self.tribs.deep_view()[i as int] == self.tribs@[i as int].deep_view());
            }
            i = i + 1;
        }
        proof {
            if self.deep_view().tribs.len() <= MAX_TRIB_FETCH {
                assert(out.deep_view() =~= self.deep_view().tribs);
            } else {
                assert(out.deep_view() =~= self.deep_view().tribs.subrange(
                    self.deep_view().tribs.len() - MAX_TRIB_FETCH,
                    self.deep_view().tribs.len() as int,
                ));
            }
            assert forall|m: int, n2: int|
                0 <= m < n2 < out.deep_view().len() implies (
            #[trigger] out.deep_view()[m]).clock < (#[trigger] out.deep_view()[n2]).clock by {
                assert(out.deep_view()[m] == self.deep_view().tribs[start + m]);
                assert(out.deep_view()[n2] == self.deep_view().tribs[start + n2]);
            }
        }
        out
    }
}

/// The single-node Tribbler server: all users, their pre-built home
/// timelines, and the global post sequence counter.
pub struct RefServer {
    users: Vec<(String, User)>,
    homes: Vec<(String, Vec<Trib>)>,
    seq: u64,
}

/// The ascending-by-sequence-number order on sequence-numbered posts.
pub open spec fn pair_le(a: (u64, TribView), b: (u64, TribView)) -> bool {
    a.0 <= b.0
}

/// The posts of a sequence-numbered list, in its order.
pub open spec fn tribs_of_pairs(ps: Seq<(u64, TribView)>) -> Seq<TribView> {
    ps.map_values(|p: (u64, TribView)| p.1)
}

/// What a rebuilt home timeline is: some arrangement `ps` of the given
/// material, ascending in sequence number, from which the timeline takes
/// the posts in order.
pub open spec fn home_build(
    material: Seq<(u64, TribView)>,
    ps: Seq<(u64, TribView)>,
    r: Seq<TribView>,
) -> bool {
    &&& ps.to_multiset() == material.to_multiset()
    &&& vstd::relations::sorted_by(ps, |a: (u64, TribView), b: (u64, TribView)| pair_le(a, b))
    &&& r == tribs_of_pairs(ps)
}

/// The sequence-numbered posts of a possibly missing user.
pub open spec fn seq_tribs_of(u: Option<UserView>) -> Seq<(u64, TribView)> {
    match u {
        Some(x) => x.seq_tribs,
        None => Seq::empty(),
    }
}

/// The combined sequence-numbered posts of the named users of a user
/// map, in list order; a missing name contributes nothing.
pub open spec fn material_over(
    udv: Seq<(Seq<char>, UserView)>,
    names: Seq<Seq<char>>,
) -> Seq<(u64, TribView)>
    decreases names.len(),
{
    if names.len() == 0 {
        Seq::empty()
    } else {
        seq_tribs_of(assoc_lookup(udv, names[0])) + material_over(udv, names.drop_first())
    }
}

/// Adding one more name to the walk appends that user's posts.
proof fn lemma_material_snoc(
    udv: Seq<(Seq<char>, UserView)>,
    names: Seq<Seq<char>>,
    nm: Seq<char>,
)
    ensures
        material_over(udv, names.push(nm)) == material_over(udv, names) + seq_tribs_of(
            assoc_lookup(udv, nm),
        ),
    decreases names.len(),
{
    if names.len() == 0 {
        assert(names.push(nm)[0] == nm);
        assert(names.push(nm).drop_first() =~= Seq::<Seq<char>>::empty());
        assert(material_over(udv, Seq::<Seq<char>>::empty()) =~= Seq::<(u64, TribView)>::empty());
        assert(names =~= Seq::<Seq<char>>::empty());
        assert(material_over(udv, names.push(nm)) == seq_tribs_of(assoc_lookup(udv, nm))
            + material_over(udv, names.push(nm).drop_first()));
        assert(material_over(udv, names.push(nm)) =~= material_over(udv, names) + seq_tribs_of(
            assoc_lookup(udv, nm),
        ));
    } else {
        assert(names.push(nm)[0] == names[0]);
        assert(names.push(nm).drop_first() =~= names.drop_first().push(nm));
        lemma_material_snoc(udv, names.drop_first(), nm);
        assert(material_over(udv, names.push(nm)) =~= material_over(udv, names) + seq_tribs_of(
            assoc_lookup(udv, nm),
        ));
    }
}

impl RefServer {
    /// The stored user under a name.
    pub closed spec fn user_of(self, name: Seq<char>) -> Option<UserView> {
        assoc_lookup(self.users.deep_view(), name)
    }

    /// The stored home timeline under a name.
    pub closed spec fn home_of(self, name: Seq<char>) -> Option<Seq<TribView>> {
        assoc_lookup(self.homes.deep_view(), name)
    }

    /// The global sequence counter.
    pub closed spec fn seq_of(self) -> u64 {
        self.seq
    }

    /// The registered names, in registration order.
    pub closed spec fn user_names(self) -> Seq<Seq<char>> {
        self.users.deep_view().map_values(|e: (Seq<char>, UserView)| e.0)
    }

    /// The registered names in ascending order.
    pub closed spec fn sorted_user_names(self) -> Seq<Seq<char>> {
        self.user_names().sort_by(|a: Seq<char>, b: Seq<char>| crate::strutil::lex_le(a, b))
    }

    /// The whole user map, as key and view pairs.
    pub closed spec fn users_view(self) -> Seq<(Seq<char>, UserView)> {
        self.users.deep_view()
    }

    /// The material a user's home timeline is rebuilt from: their own
    /// posts and those of everyone they follow.
    pub open spec fn home_material(self, who: UserView) -> Seq<(u64, TribView)> {
        who.seq_tribs + material_over(self.users_view(), who.following)
    }

    /// Well-formedness: names are unique in both maps, every stored user
    /// is well formed, users and home timelines exist for exactly the
    /// same names, and every stored post clock lies below the sequence
    /// counter.
    pub closed spec fn wf(self) -> bool {
        &&& assoc_distinct(self.users.deep_view())
        &&& assoc_distinct(self.homes.deep_view())
        &&& forall|i: int|
            0 <= i < self.users@.len() ==> (#[trigger] self.users@[i]).1.wf()
        &&& forall|nm: Seq<char>|
            #[trigger] assoc_lookup(self.homes.deep_view(), nm) is Some ==> assoc_lookup(
                self.users.deep_view(),
                nm,
            ) is Some
        &&& forall|nm: Seq<char>|
            #[trigger] assoc_lookup(self.users.deep_view(), nm) is Some ==> assoc_lookup(
                self.homes.deep_view(),
                nm,
            ) is Some
        &&& forall|i: int|
            0 <= i < self.users@.len() ==> user_clocks_below(
                (#[trigger] self.users@[i]).1.deep_view(),
                self.seq,
            )
    }

    /// The registered names and the stored users are the same map: the
    /// bridge callers need between [`Self::users_view`] (which the
    /// home-rebuild clauses speak of) and [`Self::user_of`].
    pub proof fn lemma_users_view_lookup(self, nm: Seq<char>)
        ensures
            assoc_lookup(self.users_view(), nm) == self.user_of(nm),
    {
    }

    /// The name list is duplicate-free and holds exactly the registered
    /// names: the bridge callers need between [`Self::user_names`] and
    /// [`Self::user_of`].
    pub proof fn lemma_user_names(self)
        requires
            self.wf(),
        ensures
            self.user_names().no_duplicates(),
            forall|nm: Seq<char>| #[trigger]
                self.user_names().contains(nm) <==> self.user_of(nm) is Some,
    {
        let udv = self.users.deep_view();
        let names = self.user_names();
        assert(names.len() == udv.len());
        assert(forall|i: int| 0 <= i < names.len() ==> names[i] == udv[i].0);
        assert forall|i: int, j: int|
            0 <= i < j < names.len() implies names[i] != names[j] by {
            assert(names[i] == udv[i].0 && names[j] == udv[j].0);
        }
        assert forall|nm: Seq<char>| #[trigger]
            names.contains(nm) <==> self.user_of(nm) is Some by {
            lemma_assoc_some_iff(udv, nm);
            if names.contains(nm) {
                let i = choose|i: int| 0 <= i < names.len() && names[i] == nm;
                assert(udv[i].0 == nm);
            }
            if exists|i: int| 0 <= i < udv.len() && udv[i].0 == nm {
                let i = choose|i: int| 0 <= i < udv.len() && udv[i].0 == nm;
                assert(names[i] == nm);
            }
        }
    }

    /// A user and their home timeline exist together.
    pub proof fn lemma_home_presence(self, nm: Seq<char>)
        requires
            self.wf(),
        ensures
            self.home_of(nm) is Some <==> self.user_of(nm) is Some,
    {
    }

    /// Creates a server with no users.
    pub fn new() -> (s: RefServer)
        ensures
            s.wf(),
            forall|nm: Seq<char>| #[trigger] s.user_of(nm) == None::<UserView>,
            forall|nm: Seq<char>| #[trigger] s.home_of(nm) == None::<Seq<TribView>>,
            s.seq_of() == 0,
    {
        let s = RefServer { users: Vec::new(), homes: Vec::new(), seq: 0 };
        proof {
            assert(s.users.deep_view() =~= Seq::<(Seq<char>, UserView)>::empty());
            assert(s.homes.deep_view() =~= Seq::<(Seq<char>, Seq<TribView>)>::empty());
        }
        s
    }
}

impl RefServer {
    /// Registers a new user.  Rejects an invalid name and a name that is
    /// already taken; otherwise records the user with no posts and an
    /// empty home timeline.
    pub fn sign_up(&mut self, user: &str) -> (r: Result<(), TribblerError>)
        requires
            old(self).wf(),
        ensures
            final(self).wf(),
            !crate::trib::valid_username(user@) ==> (r matches Err(e) && e matches
                TribblerError::InvalidUsername(_) && *final(self) == *old(self)),
            crate::trib::valid_username(user@) && old(self).user_of(user@) is Some ==> (
            r matches Err(e) && e matches TribblerError::UsernameTaken(_) && *final(self)
                == *old(self)),
            crate::trib::valid_username(user@) && old(self).user_of(user@) is None ==> ({
                &&& r is Ok
                &&& forall|nm: Seq<char>| #[trigger]
                    final(self).user_of(nm) == if nm == user@ {
                        Some(
                            UserView {
                                following: Seq::empty(),
                                followers: Seq::empty(),
                                seq_tribs: Seq::empty(),
                                tribs: Seq::empty(),
                            },
                        )
                    } else {
                        old(self).user_of(nm)
                    }
                &&& forall|nm: Seq<char>| #[trigger]
                    final(self).home_of(nm) == if nm == user@ {
                        Some(Seq::<TribView>::empty())
                    } else {
                        old(self).home_of(nm)
                    }
                &&& final(self).seq_of() == old(self).seq_of()
            }),
    {
        if !crate::trib::is_valid_username(user) {
            return Err(TribblerError::InvalidUsername(user.to_owned()));
        }
        let ghost u0 = self.users.deep_view();
        let ghost h0 = self.homes.deep_view();
        match assoc_find(&self.users, user) {
            Some(i) => {
                proof {
                    lemma_assoc_first_match(u0, i as int);
                }
                Err(TribblerError::UsernameTaken(user.to_owned()))
            },
            None => {
                proof {
                    lemma_assoc_lookup_absent(u0, user@);
                }
                let fresh = User::new();
                let ghost fv = fresh.deep_view();
                self.users.push((user.to_owned(), fresh));
                let empty_home: Vec<Trib> = Vec::new();
                proof {
                    assert(empty_home.deep_view() =~= Seq::<TribView>::empty());
                }
                self.homes.push((user.to_owned(), empty_home));
                proof {
                    assert(self.users.deep_view() =~= u0.push((user@, fv)));
                    assert(self.homes.deep_view() =~= h0.push(
                        (user@, Seq::<TribView>::empty())));
                    assert forall|nm: Seq<char>| #[trigger]
                        self.user_of(nm) == if nm == user@ {
                            Some(
                                UserView {
                                    following: Seq::empty(),
                                    followers: Seq::empty(),
                                    seq_tribs: Seq::empty(),
                                    tribs: Seq::empty(),
                                },
                            )
                        } else {
                            old(self).user_of(nm)
                        } by {
                        lemma_assoc_lookup_push_back(u0, (user@, fv), nm);
                        if nm == user@ {
                            assert(fv == UserView {
                                following: Seq::empty(),
                                followers: Seq::empty(),
                                seq_tribs: Seq::empty(),
                                tribs: Seq::empty(),
                            });
                        }
                    }
                    assert forall|nm: Seq<char>| #[trigger]
                        self.home_of(nm) == if nm == user@ {
                            Some(Seq::<TribView>::empty())
                        } else {
                            old(self).home_of(nm)
                        } by {
                        lemma_assoc_lookup_push_back(
                            h0,
                            (user@, Seq::<TribView>::empty()),
                            nm,
                        );
                        if nm != user@ && old(self).home_of(nm) is Some {
                        }
                    }
                    assert(self.wf()) by {
                        lemma_assoc_some_iff(u0, user@);
                        assert forall|a: int, b: int|
                            0 <= a < b < self.users.deep_view().len() implies self
                            .users.deep_view()[a].0 != self.users.deep_view()[b].0 by {
                            if b == u0.len() {
                                assert(self.users.deep_view()[a] == u0[a]);
                            } else {
                                assert(self.users.deep_view()[a] == u0[a]);
                                assert(self.users.deep_view()[b] == u0[b]);
                            }
                        }
                        assert forall|a: int|
                            0 <= a < self.users@.len() implies (#[trigger] self
                            .users@[a]).1.wf() && user_clocks_below(
                            self.users@[a].1.deep_view(),
                            self.seq,
                        ) by {
                            if a < u0.len() {
                                assert(self.users@[a] == old(self).users@[a]);
                                assert(old(self).users@[a].1.wf());
                                assert(user_clocks_below(
                                    old(self).users@[a].1.deep_view(),
                                    old(self).seq_of(),
                                ));
                            } else {
                                assert(self.users@[a].1.deep_view() == fv);
                            }
                        }
                        assert forall|nm: Seq<char>|
                            #[trigger] assoc_lookup(self.users.deep_view(), nm)
                            is Some implies assoc_lookup(self.homes.deep_view(), nm)
                            is Some by {
                            lemma_assoc_lookup_push_back(u0, (user@, fv), nm);
                            lemma_assoc_lookup_push_back(
                                h0,
                                (user@, Seq::<TribView>::empty()),
                                nm,
                            );
                            if nm != user@ {
                                assert(assoc_lookup(u0, nm) is Some);
                                assert(assoc_lookup(h0, nm) is Some);
                            }
                        }
                        assert(assoc_lookup(h0, user@) is None) by {
                            if assoc_lookup(h0, user@) is Some {
                                assert(assoc_lookup(u0, user@) is Some);
                            }
                        }
                        lemma_assoc_some_iff(h0, user@);
                        assert forall|a: int, b: int|
                            0 <= a < b < self.homes.deep_view().len() implies self
                            .homes.deep_view()[a].0 != self.homes.deep_view()[b].0 by {
                            if b == h0.len() {
                                assert(self.homes.deep_view()[a] == h0[a]);
                            } else {
                                assert(self.homes.deep_view()[a] == h0[a]);
                                assert(self.homes.deep_view()[b] == h0[b]);
                            }
                        }
                        assert forall|nm: Seq<char>|
                            #[trigger] assoc_lookup(self.homes.deep_view(), nm)
                            is Some implies assoc_lookup(self.users.deep_view(), nm)
                            is Some by {
                            lemma_assoc_lookup_push_back(
                                h0,
                                (user@, Seq::<TribView>::empty()),
                                nm,
                            );
                            lemma_assoc_lookup_push_back(u0, (user@, fv), nm);
                        }
                    }
                }
                Ok(())
            },
        }
    }
}

impl RefServer {
    /// Lists the registered users: the [`crate::trib::MIN_LIST_USER`]
    /// alphabetically smallest names, ascending.
    pub fn list_users(&self) -> (r: Result<Vec<String>, TribblerError>)
        requires
            self.wf(),
        ensures
            r matches Ok(l) && ({
                let names = self.user_names();
                let out = l.deep_view();
                &&& vstd::relations::sorted_by(
                    out,
                    |a: Seq<char>, b: Seq<char>| crate::strutil::lex_le(a, b),
                )
                &&& out.no_duplicates()
                &&& out.len() as int == if names.len() <= crate::trib::MIN_LIST_USER {
                    names.len() as int
                } else {
                    crate::trib::MIN_LIST_USER as int
                }
                &&& forall|i: int| 0 <= i < out.len() ==> names.contains(#[trigger] out[i])
                &&& forall|w: Seq<char>|
                    names.contains(w) && !out.contains(w) ==> forall|i: int|
                        0 <= i < out.len() ==> crate::strutil::lex_le(#[trigger] out[i], w)
            }),
    {
        broadcast use vstd::seq_lib::group_to_multiset_ensures;

        let ghost udv = self.users.deep_view();
        let mut names: Vec<String> = Vec::new();
        let mut i: usize = 0;
        while i < self.users.len()
            invariant
                i <= self.users@.len(),
                self.users.deep_view() == udv,
                self.users@.len() == udv.len(),
                names@.len() == i,
                forall|j: int| 0 <= j < i ==> names.deep_view()[j] == udv[j].0,
            decreases self.users@.len() - i,
        {
            let ghost ndv = names.deep_view();
            names.push(self.users[i].0.clone());
            proof {
                assert(names.deep_view() =~= ndv.push(udv[i as int].0));
            }
            i = i + 1;
        }
        proof {
            assert(names.deep_view() =~= self.user_names());
            assert(names.deep_view().no_duplicates());
        }
        let ghost all = self.user_names();
        let mut sorted = crate::strutil::sort_strings(&names);
        proof {
            let sdv = sorted.deep_view();
            assert(sdv.no_duplicates()) by {
                all.lemma_multiset_has_no_duplicates();
                sdv.lemma_multiset_has_no_duplicates_conv();
            }
            assert forall|w: Seq<char>| #[trigger] sdv.contains(w) == all.contains(w) by {
                assert(sdv.contains(w) <==> sdv.to_multiset().count(w) > 0);
                assert(all.contains(w) <==> all.to_multiset().count(w) > 0);
            }
            assert(sdv.len() == all.len()) by {
                assert(sdv.to_multiset().len() == sdv.len());
                assert(all.to_multiset().len() == all.len());
            }
        }
        let ghost sdv = sorted.deep_view();
        if sorted.len() > crate::trib::MIN_LIST_USER {
            sorted.truncate(crate::trib::MIN_LIST_USER);
            proof {
                assert(sorted.deep_view() =~= sdv.subrange(
                    0,
                    crate::trib::MIN_LIST_USER as int,
                ));
            }
        } else {
            proof {
                assert(sorted.deep_view() =~= sdv.subrange(0, sdv.len() as int));
            }
        }
        proof {
            let out = sorted.deep_view();
            let leq = |a: Seq<char>, b: Seq<char>| crate::strutil::lex_le(a, b);
            assert(vstd::relations::sorted_by(out, leq)) by {
                assert(forall|m: int| 0 <= m < out.len() ==> out[m] == sdv[m]);
            }
            assert(out.no_duplicates()) by {
                assert(forall|m: int| 0 <= m < out.len() ==> out[m] == sdv[m]);
            }
            assert forall|m: int| 0 <= m < out.len() implies all.contains(#[trigger] out[m]) by {
                assert(out[m] == sdv[m]);
                assert(sdv.contains(sdv[m]));
            }
            assert forall|w: Seq<char>|
                all.contains(w) && !out.contains(w) implies forall|m: int|
                    0 <= m < out.len() ==> crate::strutil::lex_le(#[trigger] out[m], w) by {
                assert(sdv.contains(w));
                let x = choose|x: int| 0 <= x < sdv.len() && sdv[x] == w;
                assert(x >= out.len()) by {
                    if x < out.len() {
                        assert(out[x] == sdv[x]);
                        assert(out.contains(w));
                    }
                }
                assert forall|m: int|
                    0 <= m < out.len() implies crate::strutil::lex_le(
                    #[trigger] out[m],
                    w,
                ) by {
                    assert(out[m] == sdv[m]);
                    if m < x {
                        assert(leq(sdv[m], sdv[x]));
                    }
                }
            }
        }
        Ok(sorted)
    }
}

impl RefServer {
    /// Posts a message for `who` with the caller's last seen clock.
    /// The stored clock is the sequence counter bumped past `clock`, so
    /// it is at least `clock + 1` and strictly above every clock issued
    /// before; the record carries the posting time; the post lands in
    /// the poster's log, which is trimmed to the garbage-collection
    /// window, and in every home timeline of their followers and their
    /// own.
    #[verifier::rlimit(60)]
    pub fn post(&mut self, who: &str, post: &str, clock: u64) -> (r: Result<(), TribblerError>)
        requires
            old(self).wf(),
        ensures
            final(self).wf(),
            post@.len() > crate::trib::MAX_TRIB_LEN ==> (r matches Err(e) && e matches
                TribblerError::TribTooLong && *final(self) == *old(self)),
            post@.len() <= crate::trib::MAX_TRIB_LEN && old(self).user_of(who@) is None ==> (
            r matches Err(e) && e matches TribblerError::UserDoesNotExist(_) && *final(self)
                == *old(self)),
            post@.len() <= crate::trib::MAX_TRIB_LEN && old(self).user_of(who@) is Some
                && crate::storage::clock_read(old(self).seq_of(), clock_bump(clock))
                == u64::MAX ==> (r matches Err(e) && e matches TribblerError::MaxedSeq && *final(
                self) == *old(self)),
            post@.len() <= crate::trib::MAX_TRIB_LEN && old(self).user_of(who@) is Some
                && crate::storage::clock_read(old(self).seq_of(), clock_bump(clock))
                < u64::MAX ==> ({
                let c = crate::storage::clock_read(old(self).seq_of(), clock_bump(clock));
                &&& r is Ok
                &&& c >= clock_bump(clock)
                &&& final(self).seq_of() == c + 1
                &&& exists|t: u64| #[trigger] post_effect(
                    *old(self),
                    *final(self),
                    who@,
                    post@,
                    c,
                    t,
                )
            }),
    {
        if post.unicode_len() > crate::trib::MAX_TRIB_LEN {
            return Err(TribblerError::TribTooLong);
        }
        let ghost u0 = self.users.deep_view();
        let ghost h0 = self.homes.deep_view();
        match assoc_find(&self.users, who) {
            None => {
                proof {
                    lemma_assoc_lookup_absent(u0, who@);
                }
                Err(TribblerError::UserDoesNotExist(who.to_owned()))
            },
            Some(i) => {
                proof {
                    lemma_assoc_first_match(u0, i as int);
                }
                let at_least = if clock < u64::MAX {
                    clock + 1
                } else {
                    u64::MAX
                };
                let c = if self.seq >= at_least {
                    self.seq
                } else {
                    at_least
                };
                if c == u64::MAX {
                    return Err(TribblerError::MaxedSeq);
                }
                proof {
                    assert(c == crate::storage::clock_read(old(self).seq_of(), clock_bump(
                        clock,
                    )));
                }
                self.seq = c + 1;
                let time = crate::strutil::now_secs();
                let mut entry = self.users.remove(i);
                let ghost uv = entry.1.deep_view();
                proof {
                    assert(u0[i as int].1 == uv);
                    assert(user_clocks_below(uv, old(self).seq_of()));
                    assert(forall|m: int|
                        0 <= m < uv.tribs.len() ==> (#[trigger] uv.tribs[m]).clock < c);
                    assert(forall|m: int|
                        0 <= m < uv.seq_tribs.len() ==> (#[trigger] uv.seq_tribs[m]).0 < c);
                }
                let trib = entry.1.post(who, post, c, time);
                let ghost tv = trib@;
                self.users.push(entry);
                let ghost ur = self.users.deep_view();
                proof {
                    assert(ur =~= u0.remove(i as int).push(
                        (who@, self.users@[ur.len() - 1].1.deep_view())));
                    assert forall|nm: Seq<char>| #[trigger]
                        assoc_lookup(ur, nm) == if nm == who@ {
                            Some(
                                UserView {
                                    following: uv.following,
                                    followers: uv.followers,
                                    seq_tribs: uv.seq_tribs.push((c, tv)),
                                    tribs: crate::trib::gc_window(uv.tribs.push(tv)),
                                },
                            )
                        } else {
                            assoc_lookup(u0, nm)
                        } by {
                        lemma_assoc_remove(u0, i as int, nm);
                        lemma_assoc_lookup_push_back(
                            u0.remove(i as int),
                            ur[ur.len() - 1],
                            nm,
                        );
                    }
                    assert(assoc_distinct(ur)) by {
                        assert forall|a: int, b: int|
                            0 <= a < b < ur.len() implies ur[a].0 != ur[b].0 by {
                            assert(ur[a] == if a < i {
                                u0[a]
                            } else {
                                u0[a + 1]
                            });
                            if b < ur.len() - 1 {
                                assert(ur[b] == if b < i {
                                    u0[b]
                                } else {
                                    u0[b + 1]
                                });
                            }
                        }
                    }
                    assert forall|a: int|
                        0 <= a < ur.len() implies (#[trigger] ur[a]).1.following.no_duplicates()
                        && ur[a].1.followers.no_duplicates() && posts_wf(ur[a].1)
                        && user_clocks_below(ur[a].1, (c + 1) as u64) by {
                        if a < ur.len() - 1 {
                            assert(self.users@[a] == if a < i {
                                old(self).users@[a]
                            } else {
                                old(self).users@[a + 1]
                            });
                            assert(ur[a] == (self.users@[a].0@, self.users@[a].1.deep_view()));
                            assert(self.users@[a].1.wf());
                            lemma_clocks_below_carry(ur[a].1, ur[a].1, old(self).seq_of(), (c
                                + 1) as u64);
                        } else {
                            assert(ur[a].1 == self.users@[ur.len() - 1].1.deep_view());
                            assert(self.users@[ur.len() - 1].1.wf());
                            assert forall|m: int|
                                0 <= m < ur[a].1.tribs.len() implies (#[trigger] ur[
                                a].1.tribs[m]).clock < (c + 1) as u64 by {
                                let pushed = uv.tribs.push(tv);
                                let off: int = if pushed.len() > 2
                                    * crate::trib::MAX_TRIB_FETCH {
                                    pushed.len() - crate::trib::MAX_TRIB_FETCH
                                } else {
                                    0
                                };
                                assert(ur[a].1.tribs[m] == pushed[off + m]);
                                assert(pushed[off + m] == if off + m < uv.tribs.len() {
                                    uv.tribs[off + m]
                                } else {
                                    tv
                                });
                            }
                            assert forall|m: int|
                                0 <= m < ur[a].1.seq_tribs.len() implies (#[trigger] ur[
                                a].1.seq_tribs[m]).0 < (c + 1) as u64 by {
                                if m < uv.seq_tribs.len() {
                                    assert(ur[a].1.seq_tribs[m] == uv.seq_tribs[m]);
                                } else {
                                    assert(ur[a].1.seq_tribs[m] == (c, tv));
                                }
                            }
                        }
                    }
                }
                let ghost followers = uv.followers;
                let nfollow = {
                    let last = self.users.len() - 1;
                    self.users[last].1.followers_len()
                };
                let mut fi: usize = 0;
                while fi < nfollow
                    invariant
                        self.users@.len() >= 1,
                        self.users.deep_view() == ur,
                        nfollow == followers.len(),
                        fi <= nfollow,
                        ur[ur.len() - 1].1.followers == followers,
                        ur[ur.len() - 1].0 == who@,
                        tv == trib@,
                        self.seq == c + 1,
                        c < u64::MAX,
                        c == crate::storage::clock_read(old(self).seq_of(), clock_bump(clock)),
                        assoc_distinct(self.homes.deep_view()),
                        followers.no_duplicates(),
                        forall|nm: Seq<char>| #[trigger]
                            assoc_lookup(self.homes.deep_view(), nm) == if (exists|j: int|
                                0 <= j < fi && followers[j] == nm && nm != who@) && assoc_lookup(
                                h0,
                                nm,
                            ) is Some {
                                Some(assoc_lookup(h0, nm).unwrap().push(tv))
                            } else {
                                assoc_lookup(h0, nm)
                            },
                    decreases nfollow - fi,
                {
                    let fname = {
                        let last = self.users.len() - 1;
                        self.users[last].1.follower_at(fi)
                    };
                    proof {
                        assert(fname@ == followers[fi as int]);
                    }
                    if !str_eq(fname.as_str(), who) {
                        let ghost hmid = self.homes.deep_view();
                        push_home(&mut self.homes, fname.as_str(), &trib);
                        proof {
                            assert(forall|nm: Seq<char>| #[trigger]
                                assoc_lookup(self.homes.deep_view(), nm) == if nm == fname@
                                    && assoc_lookup(hmid, nm) is Some {
                                    Some(assoc_lookup(hmid, nm).unwrap().push(trib@))
                                } else {
                                    assoc_lookup(hmid, nm)
                                });
                            assert forall|nm: Seq<char>| #[trigger]
                                assoc_lookup(self.homes.deep_view(), nm) == if (exists|j: int|
                                    0 <= j < fi + 1 && followers[j] == nm && nm != who@)
                                    && assoc_lookup(h0, nm) is Some {
                                    Some(assoc_lookup(h0, nm).unwrap().push(tv))
                                } else {
                                    assoc_lookup(h0, nm)
                                } by {
                                if nm == fname@ {
                                    assert(!(exists|j: int|
                                        0 <= j < fi && followers[j] == nm && nm != who@)) by {
                                        if exists|j: int|
                                            0 <= j < fi && followers[j] == nm && nm != who@ {
                                            let j = choose|j: int|
                                                0 <= j < fi && followers[j] == nm && nm
                                                    != who@;
                                            assert(followers[j] == followers[fi as int]);
                                        }
                                    }
                                    assert(assoc_lookup(hmid, nm) == assoc_lookup(h0, nm));
                                    assert(followers[fi as int] == nm && nm != who@);
                                    assert(exists|j: int|
                                        0 <= j < fi + 1 && followers[j] == nm && nm != who@);
                                    assert(tv == trib@);
                                    assert(assoc_lookup(self.homes.deep_view(), nm)
                                        == if assoc_lookup(hmid, nm) is Some {
                                        Some(assoc_lookup(hmid, nm).unwrap().push(trib@))
                                    } else {
                                        assoc_lookup(hmid, nm)
                                    });
                                } else {
                                    assert(assoc_lookup(self.homes.deep_view(), nm)
                                        == assoc_lookup(hmid, nm));
                                    assert((exists|j: int|
                                        0 <= j < fi && followers[j] == nm && nm != who@) == (
                                    exists|j: int|
                                        0 <= j < fi + 1 && followers[j] == nm && nm != who@))
                                        by {
                                        if exists|j: int|
                                            0 <= j < fi && followers[j] == nm && nm != who@ {
                                            let j = choose|j: int|
                                                0 <= j < fi && followers[j] == nm && nm
                                                    != who@;
                                            assert(0 <= j < fi + 1 && followers[j] == nm
                                                && nm != who@);
                                        }
                                        if exists|j: int|
                                            0 <= j < fi + 1 && followers[j] == nm && nm
                                                != who@ {
                                            let j = choose|j: int|
                                                0 <= j < fi + 1 && followers[j] == nm && nm
                                                    != who@;
                                            if j == fi {
                                                assert(followers[j] == fname@);
                                            }
                                            assert(0 <= j < fi && followers[j] == nm && nm
                                                != who@);
                                        }
                                    }
                                }
                            }
                        }
                    } else {
                        proof {
                            assert forall|nm: Seq<char>| #[trigger]
                                assoc_lookup(self.homes.deep_view(), nm) == if (exists|j: int|
                                    0 <= j < fi + 1 && followers[j] == nm && nm != who@)
                                    && assoc_lookup(h0, nm) is Some {
                                    Some(assoc_lookup(h0, nm).unwrap().push(tv))
                                } else {
                                    assoc_lookup(h0, nm)
                                } by {
                                assert((exists|j: int|
                                    0 <= j < fi && followers[j] == nm && nm != who@) == (
                                exists|j: int|
                                    0 <= j < fi + 1 && followers[j] == nm && nm != who@))
                                    by {
                                    if exists|j: int|
                                        0 <= j < fi && followers[j] == nm && nm != who@ {
                                        let j = choose|j: int|
                                            0 <= j < fi && followers[j] == nm && nm != who@;
                                        assert(0 <= j < fi + 1 && followers[j] == nm && nm
                                            != who@);
                                    }
                                    if exists|j: int|
                                        0 <= j < fi + 1 && followers[j] == nm && nm != who@ {
                                        let j = choose|j: int|
                                            0 <= j < fi + 1 && followers[j] == nm && nm
                                                != who@;
                                        if j == fi {
                                            assert(followers[j] == who@);
                                        }
                                        assert(0 <= j < fi && followers[j] == nm && nm
                                            != who@);
                                    }
                                }
                            }
                        }
                    }
                    fi = fi + 1;
                }
                let ghost hfin = self.homes.deep_view();
                push_home(&mut self.homes, who, &trib);
                proof {
                    assert(assoc_lookup(hfin, who@) == assoc_lookup(h0, who@)) by {
                        assert(!(exists|j: int|
                            0 <= j < nfollow && followers[j] == who@ && who@ != who@));
                    }
                    assert forall|nm: Seq<char>| #[trigger]
                        self.home_of(nm) == if (nm == who@ || followers.contains(nm))
                            && old(self).home_of(nm) is Some {
                            Some(old(self).home_of(nm).unwrap().push(tv))
                        } else {
                            old(self).home_of(nm)
                        } by {
                        if nm == who@ {
                        } else {
                            assert(assoc_lookup(self.homes.deep_view(), nm) == assoc_lookup(
                                hfin,
                                nm,
                            ));
                            if followers.contains(nm) {
                                let j = choose|j: int|
                                    0 <= j < followers.len() && followers[j] == nm;
                                assert(exists|j2: int|
                                    0 <= j2 < nfollow && followers[j2] == nm && nm != who@);
                            } else {
                                assert(!(exists|j2: int|
                                    0 <= j2 < nfollow && followers[j2] == nm && nm != who@))
                                    by {
                                    if exists|j2: int|
                                        0 <= j2 < nfollow && followers[j2] == nm && nm
                                            != who@ {
                                        let j2 = choose|j2: int|
                                            0 <= j2 < nfollow && followers[j2] == nm && nm
                                                != who@;
                                        assert(followers.contains(nm));
                                    }
                                }
                            }
                        }
                    }
                    assert forall|nm: Seq<char>| #[trigger]
                        self.user_of(nm) == if nm == who@ {
                            Some(
                                UserView {
                                    following: uv.following,
                                    followers: uv.followers,
                                    seq_tribs: uv.seq_tribs.push((c, tv)),
                                    tribs: crate::trib::gc_window(uv.tribs.push(tv)),
                                },
                            )
                        } else {
                            old(self).user_of(nm)
                        } by {
                        assert(self.user_of(nm) == assoc_lookup(ur, nm));
                    }
                    assert(self.wf()) by {
                        assert(self.users.deep_view() == ur);
                        assert(assoc_distinct(self.users.deep_view()));
                        assert forall|a: int|
                            0 <= a < self.users@.len() implies (#[trigger] self
                            .users@[a]).1.wf() && user_clocks_below(
                            self.users@[a].1.deep_view(),
                            self.seq,
                        ) by {
                            assert(self.users.deep_view()[a] == (
                                self.users@[a].0@,
                                self.users@[a].1.deep_view(),
                            ));
                            assert(ur[a].1.following.no_duplicates()
                                && ur[a].1.followers.no_duplicates() && posts_wf(ur[a].1)
                                && user_clocks_below(ur[a].1, (c + 1) as u64));
                        }
                        assert forall|nm: Seq<char>|
                            #[trigger] assoc_lookup(self.homes.deep_view(), nm)
                            is Some implies assoc_lookup(self.users.deep_view(), nm)
                            is Some by {
                            assert(self.home_of(nm) is Some ==> assoc_lookup(h0, nm)
                                is Some);
                            assert(assoc_lookup(u0, nm) is Some ==> assoc_lookup(ur, nm)
                                is Some);
                        }
                        assert forall|nm: Seq<char>|
                            #[trigger] assoc_lookup(self.users.deep_view(), nm)
                            is Some implies assoc_lookup(self.homes.deep_view(), nm)
                            is Some by {
                            assert(assoc_lookup(ur, nm) is Some ==> assoc_lookup(u0, nm)
                                is Some || nm == who@);
                            assert(assoc_lookup(h0, nm) is Some ==> self.home_of(nm)
                                is Some);
                        }
                    }
                    assert(post_effect(*old(self), *self, who@, post@, c, time));
                }
                Ok(())
            },
        }
    }


    /// The newest tribs of one user, oldest first.
    pub fn tribs(&self, user: &str) -> (r: Result<Vec<Trib>, TribblerError>)
        requires
            self.wf(),
        ensures
            self.user_of(user@) is None ==> (r matches Err(e) && e matches
                TribblerError::UserDoesNotExist(_)),
            self.user_of(user@) matches Some(u) ==> (r matches Ok(l) && l.deep_view() == (
            if u.tribs.len() <= MAX_TRIB_FETCH {
                u.tribs
            } else {
                u.tribs.subrange(u.tribs.len() - MAX_TRIB_FETCH, u.tribs.len() as int)
            })),
            r matches Ok(l) ==> forall|m: int, n: int|
                0 <= m < n < l.deep_view().len() ==> crate::trib::trib_le(
                    #[trigger] l.deep_view()[m],
                    #[trigger] l.deep_view()[n],
                ),
    {
        match assoc_find(&self.users, user) {
            None => {
                proof {
                    lemma_assoc_lookup_absent(self.users.deep_view(), user@);
                }
                Err(TribblerError::UserDoesNotExist(user.to_owned()))
            },
            Some(i) => {
                proof {
                    lemma_assoc_first_match(self.users.deep_view(), i as int);
                    assert(self.users.deep_view()[i as int].1 == self.users@[
                        i as int].1.deep_view());
                    assert(self.users@[i as int].1.wf());
                }
                Ok(self.users[i].1.list_tribs())
            },
        }
    }
}

impl RefServer {
    /// Rebuilds a user's home timeline: their own posts and those of
    /// everyone they follow, merged ascending by sequence number.
    pub fn rebuild_home(&self, who: &User) -> (r: Vec<Trib>)
        requires
            self.wf(),
        ensures
            exists|ps: Seq<(u64, TribView)>| #[trigger] home_build(
                self.home_material(who.deep_view()),
                ps,
                r.deep_view(),
            ),
    {
        let (out, arrangement) = self.rebuild_home_with(who);
        proof {
            assert(home_build(
                self.home_material(who.deep_view()),
                arrangement@,
                out.deep_view(),
            ));
        }
        out
    }

    /// [`Self::rebuild_home`], also handing back the sorted arrangement
    /// that witnesses the timeline's construction.
    fn rebuild_home_with(&self, who: &User) -> (out: (Vec<Trib>, Ghost<Seq<(u64, TribView)>>))
        requires
            self.wf(),
        ensures
            home_build(self.home_material(who.deep_view()), out.1@, out.0.deep_view()),
    {
        let ghost udv = self.users.deep_view();
        let ghost wdv = who.deep_view();
        let mut pairs = who.seq_tribs_clone();
        let n = who.following_len();
        let mut i: usize = 0;
        proof {
            assert(wdv.following.subrange(0, 0) =~= Seq::<Seq<char>>::empty());
            assert(material_over(udv, wdv.following.subrange(0, 0)) =~= Seq::<(
                u64,
                TribView,
            )>::empty());
            assert(pairs.deep_view() =~= wdv.seq_tribs + material_over(
                udv,
                wdv.following.subrange(0, 0),
            ));
        }
        while i < n
            invariant
                self.wf(),
                self.users.deep_view() == udv,
                who.deep_view() == wdv,
                n == wdv.following.len(),
                i <= n,
                pairs.deep_view() == wdv.seq_tribs + material_over(
                    udv,
                    wdv.following.subrange(0, i as int),
                ),
            decreases n - i,
        {
            let nm = who.following_at(i);
            proof {
                assert(wdv.following.subrange(0, i + 1) =~= wdv.following.subrange(
                    0,
                    i as int,
                ).push(nm@));
                lemma_material_snoc(udv, wdv.following.subrange(0, i as int), nm@);
            }
            let ghost pdv = pairs.deep_view();
            match assoc_find(&self.users, nm.as_str()) {
                None => {
                    proof {
                        lemma_assoc_lookup_absent(udv, nm@);
                        assert(seq_tribs_of(assoc_lookup(udv, nm@)) =~= Seq::<(
                            u64,
                            TribView,
                        )>::empty());
                        assert(pairs.deep_view() =~= pdv + seq_tribs_of(
                            assoc_lookup(udv, nm@),
                        ));
                    }
                },
                Some(x) => {
                    proof {
                        lemma_assoc_first_match(udv, x as int);
                        assert(udv[x as int].1 == self.users@[x as int].1.deep_view());
                    }
                    let mut more = self.users[x].1.seq_tribs_clone();
                    let ghost mdv = more.deep_view();
                    pairs.append(&mut more);
                    proof {
                        assert(pairs.deep_view() =~= pdv + mdv);
                        assert(mdv == seq_tribs_of(assoc_lookup(udv, nm@)));
                    }
                },
            }
            proof {
                assert(pairs.deep_view() =~= wdv.seq_tribs + material_over(
                    udv,
                    wdv.following.subrange(0, i + 1),
                ));
            }
            i = i + 1;
        }
        proof {
            assert(wdv.following.subrange(0, n as int) =~= wdv.following);
        }
        let sorted = sort_pairs(pairs);
        let ghost sdv = sorted.deep_view();
        let mut out: Vec<Trib> = Vec::new();
        let mut m: usize = 0;
        while m < sorted.len()
            invariant
                m <= sorted@.len(),
                sorted.deep_view() == sdv,
                sorted@.len() == sdv.len(),
                out@.len() == m,
                forall|j: int| 0 <= j < m ==> out.deep_view()[j] == sdv[j].1,
            decreases sorted@.len() - m,
        {
            let ghost odv = out.deep_view();
            out.push(sorted[m].1.clone());
            proof {
                assert(out.deep_view() =~= odv.push(sorted@[m as int].1.deep_view()));
                assert(sdv[m as int] == (sorted@[m as int].0, sorted@[m as int].1.deep_view()));
            }
            m = m + 1;
        }
        proof {
            let material = self.home_material(wdv);
            assert(sdv.to_multiset() == material.to_multiset());
            assert(vstd::relations::sorted_by(
                sdv,
                |a: (u64, TribView), b: (u64, TribView)| pair_le(a, b),
            )) by {
                assert forall|a: int, b: int|
                    0 <= a < b < sdv.len() implies pair_le(sdv[a], sdv[b]) by {
                    assert(sdv[a].0 <= sdv[b].0);
                }
            }
            assert(out.deep_view() =~= tribs_of_pairs(sdv));
            assert(home_build(material, sdv, out.deep_view()));
        }
        (out, Ghost(sdv))
    }
}

impl RefServer {
    /// Makes `who` follow `whom` and rebuilds `who`'s home timeline.
    #[verifier::rlimit(60)]
    pub fn follow(&mut self, who: &str, whom: &str) -> (r: Result<(), TribblerError>)
        requires
            old(self).wf(),
        ensures
            final(self).wf(),
            who@ == whom@ ==> (r matches Err(e) && e matches TribblerError::WhoWhom(_) && *final(
                self) == *old(self)),
            who@ != whom@ && old(self).user_of(whom@) is None ==> (r matches Err(e) && e matches
                TribblerError::UserDoesNotExist(_) && *final(self) == *old(self)),
            who@ != whom@ && old(self).user_of(whom@) is Some && old(self).user_of(who@)
                is None ==> (r matches Err(e) && e matches TribblerError::UserDoesNotExist(_)
                && *final(self) == *old(self)),
            who@ != whom@ && old(self).user_of(whom@) is Some && old(self).user_of(who@)
                is Some && old(self).user_of(who@).unwrap().following.contains(whom@) ==> (
            r matches Err(e) && e matches TribblerError::AlreadyFollowing(_, _) && *final(self)
                == *old(self)),
            who@ != whom@ && old(self).user_of(whom@) is Some && old(self).user_of(who@)
                is Some && !old(self).user_of(who@).unwrap().following.contains(whom@) && old(
                self,
            ).user_of(who@).unwrap().following.len() >= crate::trib::MAX_FOLLOWING ==> (
            r matches Err(e) && e matches TribblerError::FollowingTooMany && *final(self)
                == *old(self)),
            who@ != whom@ && old(self).user_of(whom@) is Some && old(self).user_of(who@)
                is Some && !old(self).user_of(who@).unwrap().following.contains(whom@) && old(
                self,
            ).user_of(who@).unwrap().following.len() < crate::trib::MAX_FOLLOWING ==> ({
                let uwho = old(self).user_of(who@).unwrap();
                let uwhom = old(self).user_of(whom@).unwrap();
                &&& r is Ok
                &&& forall|nm: Seq<char>| #[trigger]
                    final(self).user_of(nm) == if nm == who@ {
                        Some(
                            UserView {
                                following: uwho.following.push(whom@),
                                followers: uwho.followers,
                                seq_tribs: uwho.seq_tribs,
                                tribs: uwho.tribs,
                            },
                        )
                    } else if nm == whom@ {
                        Some(
                            UserView {
                                following: uwhom.following,
                                followers: if uwhom.followers.contains(who@) {
                                    uwhom.followers
                                } else {
                                    uwhom.followers.push(who@)
                                },
                                seq_tribs: uwhom.seq_tribs,
                                tribs: uwhom.tribs,
                            },
                        )
                    } else {
                        old(self).user_of(nm)
                    }
                &&& forall|nm: Seq<char>|
                    nm != who@ ==> #[trigger] final(self).home_of(nm) == old(self).home_of(nm)
                &&& final(self).home_of(who@) is Some
                &&& exists|ps: Seq<(u64, TribView)>| #[trigger] home_build(
                    final(self).home_material(final(self).user_of(who@).unwrap()),
                    ps,
                    final(self).home_of(who@).unwrap(),
                )
                &&& final(self).seq_of() == old(self).seq_of()
            }),
    {
        if str_eq(who, whom) {
            return Err(TribblerError::WhoWhom(who.to_owned()));
        }
        let ghost u0 = self.users.deep_view();
        let ghost h0 = self.homes.deep_view();
        match assoc_find(&self.users, whom) {
            None => {
                proof {
                    lemma_assoc_lookup_absent(u0, whom@);
                }
                return Err(TribblerError::UserDoesNotExist(who.to_owned()));
            },
            Some(wi) => {
                proof {
                    lemma_assoc_first_match(u0, wi as int);
                }
            },
        }
        let oi = match assoc_find(&self.users, who) {
            None => {
                proof {
                    lemma_assoc_lookup_absent(u0, who@);
                }
                return Err(TribblerError::UserDoesNotExist(who.to_owned()));
            },
            Some(oi) => {
                proof {
                    lemma_assoc_first_match(u0, oi as int);
                    assert(u0[oi as int].1 == self.users@[oi as int].1.deep_view());
                }
                oi
            },
        };
        if self.users[oi].1.is_following(whom) {
            return Err(TribblerError::AlreadyFollowing(who.to_owned(), whom.to_owned()));
        }
        if self.users[oi].1.following_len() >= crate::trib::MAX_FOLLOWING {
            return Err(TribblerError::FollowingTooMany);
        }
        let ghost uwho = old(self).user_of(who@).unwrap();
        let ghost uwhom = old(self).user_of(whom@).unwrap();
        let mut we = self.users.remove(oi);
        proof {
            assert(we.1.deep_view() == uwho);
            assert(we.1.wf());
            assert(self.users.deep_view() =~= u0.remove(oi as int));
        }
        we.1.follow(whom);
        let ghost wv = we.1.deep_view();
        proof {
            assert(wv == UserView {
                following: uwho.following.push(whom@),
                followers: uwho.followers,
                seq_tribs: uwho.seq_tribs,
                tribs: uwho.tribs,
            });
        }
        let ghost urm = self.users.deep_view();
        self.users.push(we);
        let ghost ur1 = self.users.deep_view();
        proof {
            assert(ur1 =~= urm.push((who@, wv)));
            assert forall|nm: Seq<char>| #[trigger]
                assoc_lookup(ur1, nm) == if nm == who@ {
                    Some(wv)
                } else {
                    assoc_lookup(u0, nm)
                } by {
                lemma_assoc_remove(u0, oi as int, nm);
                lemma_assoc_lookup_push_back(urm, (who@, wv), nm);
            }
            assert(assoc_distinct(ur1)) by {
                assert forall|a: int, b: int|
                    0 <= a < b < ur1.len() implies ur1[a].0 != ur1[b].0 by {
                    assert(a < urm.len());
                    assert(ur1[a] == urm[a]);
                    assert(urm[a] == if a < oi {
                        u0[a]
                    } else {
                        u0[a + 1]
                    });
                    if b < urm.len() {
                        assert(ur1[b] == urm[b]);
                        assert(urm[b] == if b < oi {
                            u0[b]
                        } else {
                            u0[b + 1]
                        });
                    }
                }
            }
            assert forall|a: int|
                0 <= a < self.users@.len() implies (#[trigger] self.users@[a]).1.wf() by {
                if a < urm.len() {
                    assert(self.users@[a] == if a < oi {
                        old(self).users@[a]
                    } else {
                        old(self).users@[a + 1]
                    });
                }
            }
        }
        let ghost sv1 = self.users@;
        proof {
            assert(forall|a: int| 0 <= a < sv1.len() ==> (#[trigger] sv1[a]).1.wf());
        }
        match assoc_find(&self.users, whom) {
            None => {
                proof {
                    lemma_assoc_some_iff(self.users.deep_view(), whom@);
                    assert(assoc_lookup(ur1, whom@) == assoc_lookup(u0, whom@));
                    assert(false);
                }
                Err(TribblerError::Unknown(String::new()))
            },
            Some(wi2) => {
                proof {
                    lemma_assoc_first_match(ur1, wi2 as int);
                    assert(ur1[wi2 as int].1 == self.users@[wi2 as int].1.deep_view());
                    assert(self.users@[wi2 as int].1.deep_view() == uwhom);
                }
                let mut me = self.users.remove(wi2);
                proof {
                    assert(me.1.deep_view() == uwhom);
                    assert(me.1.wf());
                    assert(self.users.deep_view() =~= ur1.remove(wi2 as int));
                }
                me.1.add_follower(who);
                let ghost mv = me.1.deep_view();
                proof {
                    assert(mv == UserView {
                        following: uwhom.following,
                        followers: if uwhom.followers.contains(who@) {
                            uwhom.followers
                        } else {
                            uwhom.followers.push(who@)
                        },
                        seq_tribs: uwhom.seq_tribs,
                        tribs: uwhom.tribs,
                    });
                }
                let ghost urm2 = self.users.deep_view();
                self.users.push(me);
                let ghost ur2 = self.users.deep_view();
                proof {
                    assert(ur2 =~= urm2.push((whom@, mv)));
                    assert forall|nm: Seq<char>| #[trigger]
                        assoc_lookup(ur2, nm) == if nm == whom@ {
                            Some(mv)
                        } else {
                            assoc_lookup(ur1, nm)
                        } by {
                        lemma_assoc_remove(ur1, wi2 as int, nm);
                        lemma_assoc_lookup_push_back(urm2, (whom@, mv), nm);
                    }
                    assert(assoc_distinct(ur2)) by {
                        assert forall|a: int, b: int|
                            0 <= a < b < ur2.len() implies ur2[a].0 != ur2[b].0 by {
                            assert(a < urm2.len());
                            assert(ur2[a] == urm2[a]);
                            assert(urm2[a] == if a < wi2 {
                                ur1[a]
                            } else {
                                ur1[a + 1]
                            });
                            if b < urm2.len() {
                                assert(ur2[b] == urm2[b]);
                                assert(urm2[b] == if b < wi2 {
                                    ur1[b]
                                } else {
                                    ur1[b + 1]
                                });
                            }
                        }
                    }
                    assert forall|a: int|
                        0 <= a < self.users@.len() implies (#[trigger] self.users@[a]).1.wf()
                        by {
                        if a < urm2.len() {
                            assert(self.users@[a] == if a < wi2 {
                                sv1[a]
                            } else {
                                sv1[a + 1]
                            });
                        }
                    }
                }
                match assoc_find(&self.users, who) {
                    None => {
                        proof {
                            lemma_assoc_some_iff(self.users.deep_view(), who@);
                            assert(assoc_lookup(ur2, who@) == Some(wv));
                            assert(false);
                        }
                        Err(TribblerError::Unknown(String::new()))
                    },
                    Some(oi2) => {
                        proof {
                            lemma_assoc_first_match(ur2, oi2 as int);
                            assert(ur2[oi2 as int].1 == self.users@[oi2 as int].1.deep_view());
                            assert(self.users@[oi2 as int].1.deep_view() == wv);
                        }
                        let (home, arrangement) = self.rebuild_home_with(&self.users[oi2].1);
                        let ghost hdv = home.deep_view();
                        let ghost material = self.home_material(wv);
                        proof {
                            assert(home_build(material, arrangement@, hdv));
                        }
                        set_home(&mut self.homes, who, home);
                        proof {
                            assert(self.home_material(wv) == material) by {
                                assert(self.users_view() == ur2);
                            }
                            assert(self.home_of(who@) == Some(hdv));
                            assert(home_build(
                                self.home_material(self.user_of(who@).unwrap()),
                                arrangement@,
                                self.home_of(who@).unwrap(),
                            ));
                            assert forall|nm: Seq<char>| #[trigger]
                                self.user_of(nm) == if nm == who@ {
                                    Some(
                                        UserView {
                                            following: uwho.following.push(whom@),
                                            followers: uwho.followers,
                                            seq_tribs: uwho.seq_tribs,
                                            tribs: uwho.tribs,
                                        },
                                    )
                                } else if nm == whom@ {
                                    Some(
                                        UserView {
                                            following: uwhom.following,
                                            followers: if uwhom.followers.contains(who@) {
                                                uwhom.followers
                                            } else {
                                                uwhom.followers.push(who@)
                                            },
                                            seq_tribs: uwhom.seq_tribs,
                                            tribs: uwhom.tribs,
                                        },
                                    )
                                } else {
                                    old(self).user_of(nm)
                                } by {
                                assert(self.user_of(nm) == assoc_lookup(ur2, nm));
                            }
                            assert(self.wf()) by {
                                assert forall|nm: Seq<char>|
                                    #[trigger] assoc_lookup(self.homes.deep_view(), nm)
                                    is Some implies assoc_lookup(self.users.deep_view(), nm)
                                    is Some by {
                                    if nm != who@ {
                                        assert(assoc_lookup(h0, nm) is Some);
                                        assert(assoc_lookup(u0, nm) is Some);
                                    }
                                }
                            }
                        }
                        Ok(())
                    },
                }
            },
        }
    }
}

impl RefServer {
    /// Makes `who` stop following `whom` and rebuilds `who`'s home
    /// timeline.
    #[verifier::rlimit(60)]
    pub fn unfollow(&mut self, who: &str, whom: &str) -> (r: Result<(), TribblerError>)
        requires
            old(self).wf(),
        ensures
            final(self).wf(),
            who@ == whom@ ==> (r matches Err(e) && e matches TribblerError::WhoWhom(_) && *final(
                self) == *old(self)),
            who@ != whom@ && old(self).user_of(whom@) is None ==> (r matches Err(e) && e matches
                TribblerError::UserDoesNotExist(_) && *final(self) == *old(self)),
            who@ != whom@ && old(self).user_of(whom@) is Some && old(self).user_of(who@)
                is None ==> (r matches Err(e) && e matches TribblerError::UserDoesNotExist(_)
                && *final(self) == *old(self)),
            who@ != whom@ && old(self).user_of(whom@) is Some && old(self).user_of(who@)
                is Some && !old(self).user_of(who@).unwrap().following.contains(whom@) ==> (
            r matches Err(e) && e matches TribblerError::NotFollowing(_, _) && *final(self)
                == *old(self)),
            who@ != whom@ && old(self).user_of(whom@) is Some && old(self).user_of(who@)
                is Some && old(self).user_of(who@).unwrap().following.contains(whom@) ==> ({
                let uwho = old(self).user_of(who@).unwrap();
                let uwhom = old(self).user_of(whom@).unwrap();
                &&& r is Ok
                &&& forall|nm: Seq<char>| #[trigger]
                    final(self).user_of(nm) == if nm == who@ {
                        Some(
                            UserView {
                                following: remove_all(uwho.following, whom@),
                                followers: uwho.followers,
                                seq_tribs: uwho.seq_tribs,
                                tribs: uwho.tribs,
                            },
                        )
                    } else if nm == whom@ {
                        Some(
                            UserView {
                                following: uwhom.following,
                                followers: remove_all(uwhom.followers, who@),
                                seq_tribs: uwhom.seq_tribs,
                                tribs: uwhom.tribs,
                            },
                        )
                    } else {
                        old(self).user_of(nm)
                    }
                &&& forall|nm: Seq<char>|
                    nm != who@ ==> #[trigger] final(self).home_of(nm) == old(self).home_of(nm)
                &&& final(self).home_of(who@) is Some
                &&& exists|ps: Seq<(u64, TribView)>| #[trigger] home_build(
                    final(self).home_material(final(self).user_of(who@).unwrap()),
                    ps,
                    final(self).home_of(who@).unwrap(),
                )
                &&& final(self).seq_of() == old(self).seq_of()
            }),
    {
        if str_eq(who, whom) {
            return Err(TribblerError::WhoWhom(who.to_owned()));
        }
        let ghost u0 = self.users.deep_view();
        let ghost h0 = self.homes.deep_view();
        match assoc_find(&self.users, whom) {
            None => {
                proof {
                    lemma_assoc_lookup_absent(u0, whom@);
                }
                return Err(TribblerError::UserDoesNotExist(whom.to_owned()));
            },
            Some(wi) => {
                proof {
                    lemma_assoc_first_match(u0, wi as int);
                }
            },
        }
        let oi = match assoc_find(&self.users, who) {
            None => {
                proof {
                    lemma_assoc_lookup_absent(u0, who@);
                }
                return Err(TribblerError::UserDoesNotExist(whom.to_owned()));
            },
            Some(oi) => {
                proof {
                    lemma_assoc_first_match(u0, oi as int);
                    assert(u0[oi as int].1 == self.users@[oi as int].1.deep_view());
                }
                oi
            },
        };
        if !self.users[oi].1.is_following(whom) {
            return Err(TribblerError::NotFollowing(who.to_owned(), whom.to_owned()));
        }
        let ghost uwho = old(self).user_of(who@).unwrap();
        let ghost uwhom = old(self).user_of(whom@).unwrap();
        let mut we = self.users.remove(oi);
        proof {
            assert(we.1.deep_view() == uwho);
            assert(we.1.wf());
            assert(self.users.deep_view() =~= u0.remove(oi as int));
        }
        we.1.unfollow(whom);
        let ghost wv = we.1.deep_view();
        proof {
            assert(wv == UserView {
                following: remove_all(uwho.following, whom@),
                followers: uwho.followers,
                seq_tribs: uwho.seq_tribs,
                tribs: uwho.tribs,
            });
        }
        let ghost urm = self.users.deep_view();
        self.users.push(we);
        let ghost ur1 = self.users.deep_view();
        proof {
            assert(ur1 =~= urm.push((who@, wv)));
            assert forall|nm: Seq<char>| #[trigger]
                assoc_lookup(ur1, nm) == if nm == who@ {
                    Some(wv)
                } else {
                    assoc_lookup(u0, nm)
                } by {
                lemma_assoc_remove(u0, oi as int, nm);
                lemma_assoc_lookup_push_back(urm, (who@, wv), nm);
            }
            assert(assoc_distinct(ur1)) by {
                assert forall|a: int, b: int|
                    0 <= a < b < ur1.len() implies ur1[a].0 != ur1[b].0 by {
                    assert(a < urm.len());
                    assert(ur1[a] == urm[a]);
                    assert(urm[a] == if a < oi {
                        u0[a]
                    } else {
                        u0[a + 1]
                    });
                    if b < urm.len() {
                        assert(ur1[b] == urm[b]);
                        assert(urm[b] == if b < oi {
                            u0[b]
                        } else {
                            u0[b + 1]
                        });
                    }
                }
            }
            assert forall|a: int|
                0 <= a < self.users@.len() implies (#[trigger] self.users@[a]).1.wf() by {
                if a < urm.len() {
                    assert(self.users@[a] == if a < oi {
                        old(self).users@[a]
                    } else {
                        old(self).users@[a + 1]
                    });
                }
            }
        }
        let ghost sv1 = self.users@;
        proof {
            assert(forall|a: int| 0 <= a < sv1.len() ==> (#[trigger] sv1[a]).1.wf());
        }
        match assoc_find(&self.users, whom) {
            None => {
                proof {
                    lemma_assoc_some_iff(self.users.deep_view(), whom@);
                    assert(assoc_lookup(ur1, whom@) == assoc_lookup(u0, whom@));
                    assert(false);
                }
                Err(TribblerError::Unknown(String::new()))
            },
            Some(wi2) => {
                proof {
                    lemma_assoc_first_match(ur1, wi2 as int);
                    assert(ur1[wi2 as int].1 == self.users@[wi2 as int].1.deep_view());
                    assert(self.users@[wi2 as int].1.deep_view() == uwhom);
                }
                let mut me = self.users.remove(wi2);
                proof {
                    assert(me.1.deep_view() == uwhom);
                    assert(me.1.wf());
                    assert(self.users.deep_view() =~= ur1.remove(wi2 as int));
                }
                me.1.remove_follower(who);
                let ghost mv = me.1.deep_view();
                proof {
                    assert(mv == UserView {
                        following: uwhom.following,
                        followers: remove_all(uwhom.followers, who@),
                        seq_tribs: uwhom.seq_tribs,
                        tribs: uwhom.tribs,
                    });
                }
                let ghost urm2 = self.users.deep_view();
                self.users.push(me);
                let ghost ur2 = self.users.deep_view();
                proof {
                    assert(ur2 =~= urm2.push((whom@, mv)));
                    assert forall|nm: Seq<char>| #[trigger]
                        assoc_lookup(ur2, nm) == if nm == whom@ {
                            Some(mv)
                        } else {
                            assoc_lookup(ur1, nm)
                        } by {
                        lemma_assoc_remove(ur1, wi2 as int, nm);
                        lemma_assoc_lookup_push_back(urm2, (whom@, mv), nm);
                    }
                    assert(assoc_distinct(ur2)) by {
                        assert forall|a: int, b: int|
                            0 <= a < b < ur2.len() implies ur2[a].0 != ur2[b].0 by {
                            assert(a < urm2.len());
                            assert(ur2[a] == urm2[a]);
                            assert(urm2[a] == if a < wi2 {
                                ur1[a]
                            } else {
                                ur1[a + 1]
                            });
                            if b < urm2.len() {
                                assert(ur2[b] == urm2[b]);
                                assert(urm2[b] == if b < wi2 {
                                    ur1[b]
                                } else {
                                    ur1[b + 1]
                                });
                            }
                        }
                    }
                    assert forall|a: int|
                        0 <= a < self.users@.len() implies (#[trigger] self.users@[a]).1.wf()
                        by {
                        if a < urm2.len() {
                            assert(self.users@[a] == if a < wi2 {
                                sv1[a]
                            } else {
                                sv1[a + 1]
                            });
                        }
                    }
                }
                match assoc_find(&self.users, who) {
                    None => {
                        proof {
                            lemma_assoc_some_iff(self.users.deep_view(), who@);
                            assert(assoc_lookup(ur2, who@) == Some(wv));
                            assert(false);
                        }
                        Err(TribblerError::Unknown(String::new()))
                    },
                    Some(oi2) => {
                        proof {
                            lemma_assoc_first_match(ur2, oi2 as int);
                            assert(ur2[oi2 as int].1 == self.users@[oi2 as int].1.deep_view());
                            assert(self.users@[oi2 as int].1.deep_view() == wv);
                        }
                        let (home, arrangement) = self.rebuild_home_with(&self.users[oi2].1);
                        let ghost hdv = home.deep_view();
                        let ghost material = self.home_material(wv);
                        proof {
                            assert(home_build(material, arrangement@, hdv));
                        }
                        set_home(&mut self.homes, who, home);
                        proof {
                            assert(self.home_material(wv) == material) by {
                                assert(self.users_view() == ur2);
                            }
                            assert(self.home_of(who@) == Some(hdv));
                            assert(home_build(
                                self.home_material(self.user_of(who@).unwrap()),
                                arrangement@,
                                self.home_of(who@).unwrap(),
                            ));
                            assert forall|nm: Seq<char>| #[trigger]
                                self.user_of(nm) == if nm == who@ {
                                    Some(
                                        UserView {
                                            following: remove_all(uwho.following, whom@),
                                            followers: uwho.followers,
                                            seq_tribs: uwho.seq_tribs,
                                            tribs: uwho.tribs,
                                        },
                                    )
                                } else if nm == whom@ {
                                    Some(
                                        UserView {
                                            following: uwhom.following,
                                            followers: remove_all(uwhom.followers, who@),
                                            seq_tribs: uwhom.seq_tribs,
                                            tribs: uwhom.tribs,
                                        },
                                    )
                                } else {
                                    old(self).user_of(nm)
                                } by {
                                assert(self.user_of(nm) == assoc_lookup(ur2, nm));
                            }
                            assert(self.wf()) by {
                                assert forall|nm: Seq<char>|
                                    #[trigger] assoc_lookup(self.homes.deep_view(), nm)
                                    is Some implies assoc_lookup(self.users.deep_view(), nm)
                                    is Some by {
                                    if nm != who@ {
                                        assert(assoc_lookup(h0, nm) is Some);
                                        assert(assoc_lookup(u0, nm) is Some);
                                    }
                                }
                            }
                        }
                        Ok(())
                    },
                }
            },
        }
    }

    /// Whether `who` follows `whom`.
    pub fn is_following(&self, who: &str, whom: &str) -> (r: Result<bool, TribblerError>)
        requires
            self.wf(),
        ensures
            who@ == whom@ ==> (r matches Err(e) && e matches TribblerError::WhoWhom(_)),
            who@ != whom@ && self.user_of(whom@) is None ==> (r matches Err(e) && e matches
                TribblerError::UserDoesNotExist(_)),
            who@ != whom@ && self.user_of(whom@) is Some && self.user_of(who@) is None ==> (
            r matches Err(e) && e matches TribblerError::UserDoesNotExist(_)),
            who@ != whom@ && self.user_of(whom@) is Some && self.user_of(who@) is Some ==> r
                == Ok::<bool, TribblerError>(
                self.user_of(who@).unwrap().following.contains(whom@),
            ),
    {
        if str_eq(who, whom) {
            return Err(TribblerError::WhoWhom(who.to_owned()));
        }
        let ghost u0 = self.users.deep_view();
        match assoc_find(&self.users, whom) {
            None => {
                proof {
                    lemma_assoc_lookup_absent(u0, whom@);
                }
                return Err(TribblerError::UserDoesNotExist(whom.to_owned()));
            },
            Some(wi) => {
                proof {
                    lemma_assoc_first_match(u0, wi as int);
                }
            },
        }
        match assoc_find(&self.users, who) {
            None => {
                proof {
                    lemma_assoc_lookup_absent(u0, who@);
                }
                Err(TribblerError::UserDoesNotExist(who.to_owned()))
            },
            Some(oi) => {
                proof {
                    lemma_assoc_first_match(u0, oi as int);
                    assert(u0[oi as int].1 == self.users@[oi as int].1.deep_view());
                }
                Ok(self.users[oi].1.is_following(whom))
            },
        }
    }

    /// The names `who` follows.
    pub fn following(&self, who: &str) -> (r: Result<Vec<String>, TribblerError>)
        requires
            self.wf(),
        ensures
            self.user_of(who@) is None ==> (r matches Err(e) && e matches
                TribblerError::UserDoesNotExist(_)),
            self.user_of(who@) matches Some(u) ==> (r matches Ok(l) && l.deep_view()
                == u.following),
    {
        match assoc_find(&self.users, who) {
            None => {
                proof {
                    lemma_assoc_lookup_absent(self.users.deep_view(), who@);
                }
                Err(TribblerError::UserDoesNotExist(who.to_owned()))
            },
            Some(oi) => {
                proof {
                    lemma_assoc_first_match(self.users.deep_view(), oi as int);
                    assert(self.users.deep_view()[oi as int].1 == self.users@[
                        oi as int].1.deep_view());
                }
                Ok(self.users[oi].1.list_following())
            },
        }
    }

    /// The newest entries of a user's home timeline, oldest first.
    pub fn home(&self, user: &str) -> (r: Result<Vec<Trib>, TribblerError>)
        requires
            self.wf(),
        ensures
            self.user_of(user@) is None <==> (r matches Err(e) && e matches
                TribblerError::UserDoesNotExist(_)),
            self.home_of(user@) is None ==> (r matches Err(e) && e matches
                TribblerError::UserDoesNotExist(_)),
            self.home_of(user@) matches Some(h) ==> (r matches Ok(l) && l.deep_view() == (
            if h.len() <= MAX_TRIB_FETCH {
                h
            } else {
                h.subrange(h.len() - MAX_TRIB_FETCH, h.len() as int)
            })),
    {
        proof {
            self.lemma_home_presence(user@);
        }
        match assoc_find(&self.homes, user) {
            None => {
                proof {
                    lemma_assoc_lookup_absent(self.homes.deep_view(), user@);
                }
                Err(TribblerError::UserDoesNotExist(user.to_owned()))
            },
            Some(hi) => {
                proof {
                    lemma_assoc_first_match(self.homes.deep_view(), hi as int);
                    assert(self.homes.deep_view()[hi as int].1 == self.homes@[
                        hi as int].1.deep_view());
                }
                let hv = &self.homes[hi].1;
                let n = hv.len();
                let start = if n > MAX_TRIB_FETCH {
                    n - MAX_TRIB_FETCH
                } else {
                    0
                };
                let mut out: Vec<Trib> = Vec::new();
                let mut i = start;
                while i < n
                    invariant
                        start <= i <= n,
                        n == hv@.len(),
                        out@.len() == i - start,
                        forall|j: int|
                            0 <= j < out@.len() ==> out.deep_view()[j] == hv.deep_view()[start
                                + j],
                    decreases n - i,
                {
                    let ghost odv = out.deep_view();
                    out.push(hv[i].clone());
                    proof {
                        assert(out.deep_view() =~= odv.push(hv@[i as int].deep_view()));
                        assert(hv.deep_view()[i as int] == hv@[i as int].deep_view());
                    }
                    i = i + 1;
                }
                proof {
                    let h = self.homes.deep_view()[hi as int].1;
                    if h.len() <= MAX_TRIB_FETCH {
                        assert(out.deep_view() =~= h);
                    } else {
                        assert(out.deep_view() =~= h.subrange(
                            h.len() - MAX_TRIB_FETCH,
                            h.len() as int,
                        ));
                    }
                }
                Ok(out)
            },
        }
    }
}

impl Default for RefServer {
    /// The same as [`RefServer::new`].
    fn default() -> (s: RefServer)
        ensures
            s.wf(),
            forall|nm: Seq<char>| #[trigger] s.user_of(nm) == None::<UserView>,
            forall|nm: Seq<char>| #[trigger] s.home_of(nm) == None::<Seq<TribView>>,
            s.seq_of() == 0,
    {
        RefServer::new()
    }
}

/// Stores `l` as the home timeline under `name`, replacing any previous
/// one.
fn set_home(homes: &mut Vec<(String, Vec<Trib>)>, name: &str, l: Vec<Trib>)
    requires
        assoc_distinct(old(homes).deep_view()),
    ensures
        assoc_distinct(final(homes).deep_view()),
        forall|nm: Seq<char>| #[trigger]
            assoc_lookup(final(homes).deep_view(), nm) == if nm == name@ {
                Some(l.deep_view())
            } else {
                assoc_lookup(old(homes).deep_view(), nm)
            },
{
    let ghost h0 = homes.deep_view();
    let ghost ldv = l.deep_view();
    match assoc_find(homes, name) {
        None => {
            proof {
                lemma_assoc_lookup_absent(h0, name@);
            }
            homes.push((name.to_owned(), l));
            proof {
                assert(homes.deep_view() =~= h0.push((name@, ldv)));
                assert forall|nm: Seq<char>| #[trigger]
                    assoc_lookup(homes.deep_view(), nm) == if nm == name@ {
                        Some(ldv)
                    } else {
                        assoc_lookup(h0, nm)
                    } by {
                    lemma_assoc_lookup_push_back(h0, (name@, ldv), nm);
                }
                assert forall|a: int, b: int|
                    0 <= a < b < homes.deep_view().len() implies homes.deep_view()[a].0
                    != homes.deep_view()[b].0 by {
                    assert(homes.deep_view()[a] == h0[a]);
                    if b < h0.len() {
                        assert(homes.deep_view()[b] == h0[b]);
                    }
                }
            }
        },
        Some(i) => {
            proof {
                lemma_assoc_first_match(h0, i as int);
            }
            let _ = homes.remove(i);
            proof {
                assert(homes.deep_view() =~= h0.remove(i as int));
            }
            let ghost hr = homes.deep_view();
            homes.push((name.to_owned(), l));
            proof {
                assert(homes.deep_view() =~= hr.push((name@, ldv)));
                assert forall|nm: Seq<char>| #[trigger]
                    assoc_lookup(homes.deep_view(), nm) == if nm == name@ {
                        Some(ldv)
                    } else {
                        assoc_lookup(h0, nm)
                    } by {
                    lemma_assoc_remove(h0, i as int, nm);
                    lemma_assoc_lookup_push_back(hr, (name@, ldv), nm);
                }
                assert forall|a: int, b: int|
                    0 <= a < b < homes.deep_view().len() implies homes.deep_view()[a].0
                    != homes.deep_view()[b].0 by {
                    assert(a < hr.len());
                    assert(homes.deep_view()[a] == hr[a]);
                    assert(hr[a] == if a < i {
                        h0[a]
                    } else {
                        h0[a + 1]
                    });
                    if b < hr.len() {
                        assert(homes.deep_view()[b] == hr[b]);
                        assert(hr[b] == if b < i {
                            h0[b]
                        } else {
                            h0[b + 1]
                        });
                    }
                }
            }
        },
    }
}

/// Sorts sequence-numbered posts ascending by their sequence number.
fn sort_pairs(v: Vec<(u64, Trib)>) -> (r: Vec<(u64, Trib)>)
    ensures
        r.deep_view().to_multiset() == v.deep_view().to_multiset(),
        forall|m: int, n: int|
            0 <= m < n < r.deep_view().len() ==> #[trigger] r.deep_view()[m].0
                <= #[trigger] r.deep_view()[n].0,
{
    broadcast use vstd::seq_lib::group_to_multiset_ensures;

    let ghost dv0 = v.deep_view();
    let mut rest = v;
    let mut out: Vec<(u64, Trib)> = Vec::new();
    proof {
        assert(out.deep_view() =~= Seq::<(u64, TribView)>::empty());
        assert(out.deep_view().to_multiset().add(rest.deep_view().to_multiset())
            =~= dv0.to_multiset());
    }
    while rest.len() > 0
        invariant
            out.deep_view().to_multiset().add(rest.deep_view().to_multiset())
                == dv0.to_multiset(),
            forall|m: int, n: int|
                0 <= m < n < out.deep_view().len() ==> #[trigger] out.deep_view()[m].0
                    <= #[trigger] out.deep_view()[n].0,
        decreases rest@.len(),
    {
        let ghost rdv = rest.deep_view();
        let x = rest.remove(0);
        proof {
            assert(rest.deep_view() =~= rdv.remove(0));
            assert(rdv[0] == (x.0, x.1.deep_view()));
            rdv.to_multiset_ensures();
            assert(rdv.remove(0).to_multiset() =~= rdv.to_multiset().remove(rdv[0]));
            assert(rdv.contains(rdv[0]));
            assert(rdv.to_multiset().count(rdv[0]) > 0);
        }
        let ghost odv = out.deep_view();
        let mut j: usize = 0;
        while j < out.len() && out[j].0 <= x.0
            invariant
                j <= out@.len(),
                out.deep_view() == odv,
                out@.len() == odv.len(),
                forall|m: int| 0 <= m < j ==> (#[trigger] odv[m]).0 <= x.0,
            decreases out@.len() - j,
        {
            proof {
                assert(odv[j as int] == (out@[j as int].0, out@[j as int].1.deep_view()));
            }
            j = j + 1;
        }
        proof {
            if j < out@.len() {
                assert(odv[j as int] == (out@[j as int].0, out@[j as int].1.deep_view()));
                assert(x.0 <= odv[j as int].0);
            }
        }
        let ghost xs = (x.0, x.1.deep_view());
        out.insert(j, x);
        proof {
            let ndv = out.deep_view();
            assert(ndv =~= odv.insert(j as int, xs));
            assert forall|m: int, n: int|
                0 <= m < n < ndv.len() implies (#[trigger] ndv[m]).0 <= (
            #[trigger] ndv[n]).0 by {
                if n < j {
                    assert(ndv[m] == odv[m] && ndv[n] == odv[n]);
                } else if n == j {
                    assert(ndv[m] == odv[m]);
                    assert(ndv[n] == xs);
                } else {
                    assert(ndv[n] == odv[n - 1]);
                    if m < j {
                        assert(ndv[m] == odv[m]);
                    } else if m == j {
                        assert(ndv[m] == xs);
                    } else {
                        assert(ndv[m] == odv[m - 1]);
                    }
                }
            }
            ndv.to_multiset_ensures();
            assert(ndv.remove(j as int) =~= odv);
            assert(ndv[j as int] == xs);
            assert(ndv.remove(j as int).to_multiset() =~= ndv.to_multiset().remove(xs));
            assert(odv.to_multiset() =~= ndv.to_multiset().remove(xs));
            assert(ndv.contains(xs)) by {
                assert((j as int) < ndv.len() && ndv[j as int] == xs);
            }
            assert(ndv.to_multiset().count(xs) > 0);
            assert(ndv.to_multiset() =~= odv.to_multiset().insert(xs));
        }
    }
    proof {
        assert(rest.deep_view() =~= Seq::<(u64, TribView)>::empty());
        assert(out.deep_view().to_multiset() =~= dv0.to_multiset());
    }
    out
}

/// Appends a trib to the home timeline stored under `name`, if one is
/// stored; a missing timeline stays missing.
fn push_home(homes: &mut Vec<(String, Vec<Trib>)>, name: &str, t: &Trib)
    requires
        assoc_distinct(old(homes).deep_view()),
    ensures
        assoc_distinct(final(homes).deep_view()),
        forall|nm: Seq<char>| #[trigger]
            assoc_lookup(final(homes).deep_view(), nm) == if nm == name@ && assoc_lookup(
                old(homes).deep_view(),
                nm,
            ) is Some {
                Some(assoc_lookup(old(homes).deep_view(), nm).unwrap().push(t@))
            } else {
                assoc_lookup(old(homes).deep_view(), nm)
            },
{
    let ghost h0 = homes.deep_view();
    match assoc_find(homes, name) {
        None => {
            proof {
                lemma_assoc_lookup_absent(h0, name@);
            }
        },
        Some(i) => {
            proof {
                lemma_assoc_first_match(h0, i as int);
            }
            let mut entry = homes.remove(i);
            let ghost l0 = entry.1.deep_view();
            entry.1.push(t.clone());
            proof {
                assert(entry.1.deep_view() =~= l0.push(t@));
                assert(homes.deep_view() =~= h0.remove(i as int));
            }
            let ghost hr = homes.deep_view();
            homes.push(entry);
            proof {
                assert(homes.deep_view() =~= hr.push((name@, l0.push(t@))));
                assert forall|nm: Seq<char>| #[trigger]
                    assoc_lookup(homes.deep_view(), nm) == if nm == name@ && assoc_lookup(
                        h0,
                        nm,
                    ) is Some {
                        Some(assoc_lookup(h0, nm).unwrap().push(t@))
                    } else {
                        assoc_lookup(h0, nm)
                    } by {
                    lemma_assoc_remove(h0, i as int, nm);
                    lemma_assoc_lookup_push_back(hr, (name@, l0.push(t@)), nm);
                }
                assert forall|a: int, b: int|
                    0 <= a < b < homes.deep_view().len() implies homes.deep_view()[a].0
                    != homes.deep_view()[b].0 by {
                    assert(homes.deep_view()[a] == if a < hr.len() {
                        hr[a]
                    } else {
                        (name@, l0.push(t@))
                    });
                    assert(hr =~= h0.remove(i as int));
                    assert(a < hr.len());
                    assert(hr[a] == if a < i {
                        h0[a]
                    } else {
                        h0[a + 1]
                    });
                    if b < hr.len() {
                        assert(homes.deep_view()[b] == hr[b]);
                        assert(hr[b] == if b < i {
                            h0[b]
                        } else {
                            h0[b + 1]
                        });
                    }
                }
            }
        },
    }
}

/// Whether a vector of strings holds one equal to `x`.
fn contains_string(v: &Vec<String>, x: &str) -> (r: bool)
    ensures
        r == v.deep_view().contains(x@),
{
    let mut i: usize = 0;
    while i < v.len()
        invariant
            i <= v@.len(),
            forall|j: int| 0 <= j < i ==> v.deep_view()[j] != x@,
        decreases v@.len() - i,
    {
        if str_eq(v[i].as_str(), x) {
            proof {
                assert(v.deep_view()[i as int] == x@);
            }
            return true;
        }
        proof {
            assert(v.deep_view()[i as int] == v@[i as int]@);
        }
        i = i + 1;
    }
    proof {
        if v.deep_view().contains(x@) {
            let j = choose|j: int| 0 <= j < v.deep_view().len() && v.deep_view()[j] == x@;
        }
    }
    false
}

/// A copy of the vector without any string equal to `x`.
fn remove_string(v: &Vec<String>, x: &str) -> (r: Vec<String>)
    ensures
        r.deep_view() == remove_all(v.deep_view(), x@),
{
    let ghost dv = v.deep_view();
    let mut out: Vec<String> = Vec::new();
    let mut i: usize = 0;
    proof {
        assert(dv.subrange(0, 0) =~= Seq::<Seq<char>>::empty());
        assert(out.deep_view() =~= remove_all(dv.subrange(0, 0), x@));
    }
    while i < v.len()
        invariant
            i <= v@.len(),
            v@.len() == dv.len(),
            v.deep_view() == dv,
            out.deep_view() == remove_all(dv.subrange(0, i as int), x@),
        decreases v@.len() - i,
    {
        proof {
            assert(dv.subrange(0, i + 1).drop_last() =~= dv.subrange(0, i as int));
            assert(dv.subrange(0, i + 1).last() == dv[i as int]);
            assert(dv[i as int] == v@[i as int]@);
        }
        let ghost odv = out.deep_view();
        if !str_eq(v[i].as_str(), x) {
            out.push(v[i].clone());
            proof {
                assert(out.deep_view() =~= odv.push(dv[i as int]));
            }
        }
        i = i + 1;
    }
    proof {
        assert(dv.subrange(0, dv.len() as int) =~= dv);
    }
    out
}

/// Clones a vector of strings.
fn clone_strings(v: &Vec<String>) -> (r: Vec<String>)
    ensures
        r.deep_view() == v.deep_view(),
{
    let mut out: Vec<String> = Vec::new();
    let mut i: usize = 0;
    while i < v.len()
        invariant
            i <= v@.len(),
            out@.len() == i,
            forall|j: int| 0 <= j < i ==> out@[j]@ == v@[j]@,
        decreases v@.len() - i,
    {
        out.push(v[i].clone());
        i = i + 1;
    }
    proof {
        assert(out.deep_view() =~= v.deep_view());
    }
    out
}

/// Taking every copy of a value out of a duplicate-free list keeps it
/// duplicate free.
proof fn lemma_remove_all_no_dup(l: Seq<Seq<char>>, v: Seq<char>)
    requires
        l.no_duplicates(),
    ensures
        remove_all(l, v).no_duplicates(),
        forall|w: Seq<char>| #[trigger]
            remove_all(l, v).contains(w) <==> (l.contains(w) && w != v),
    decreases l.len(),
{
    if l.len() > 0 {
        assert(l.drop_last().no_duplicates()) by {
            assert(forall|i: int| 0 <= i < l.drop_last().len() ==> l.drop_last()[i] == l[i]);
        }
        lemma_remove_all_no_dup(l.drop_last(), v);
        let g = remove_all(l.drop_last(), v);
        if l.last() != v {
            assert forall|m: int, n2: int|
                0 <= m < n2 < g.push(l.last()).len() implies g.push(l.last())[m] != g.push(
                l.last(),
            )[n2] by {
                if n2 == g.len() {
                    assert(g.push(l.last())[m] == g[m]);
                    assert(g.contains(g[m]));
                    assert(l.drop_last().contains(g[m]));
                    let x = choose|x: int|
                        0 <= x < l.drop_last().len() && l.drop_last()[x] == g[m];
                    assert(l[x] == g[m]);
                    assert(l[x] != l[l.len() - 1]);
                }
            }
            assert forall|w: Seq<char>| #[trigger]
                g.push(l.last()).contains(w) <==> (l.contains(w) && w != v) by {
                if g.push(l.last()).contains(w) {
                    let x = choose|x: int|
                        0 <= x < g.push(l.last()).len() && g.push(l.last())[x] == w;
                    if x < g.len() {
                        assert(g.contains(w));
                        assert(l.drop_last().contains(w));
                        let y = choose|y: int|
                            0 <= y < l.drop_last().len() && l.drop_last()[y] == w;
                        assert(l[y] == w);
                    } else {
                        assert(w == l.last());
                        assert(l[l.len() - 1] == w);
                    }
                }
                if l.contains(w) && w != v {
                    let x = choose|x: int| 0 <= x < l.len() && l[x] == w;
                    if x < l.len() - 1 {
                        assert(l.drop_last()[x] == w);
                        assert(l.drop_last().contains(w));
                        assert(g.contains(w));
                        let y = choose|y: int| 0 <= y < g.len() && g[y] == w;
                        assert(g.push(l.last())[y] == w);
                    } else {
                        assert(g.push(l.last())[g.len() as int] == w);
                    }
                }
            }
        } else {
            assert forall|w: Seq<char>| #[trigger]
                g.contains(w) <==> (l.contains(w) && w != v) by {
                if l.contains(w) && w != v {
                    let x = choose|x: int| 0 <= x < l.len() && l[x] == w;
                    assert(x < l.len() - 1);
                    assert(l.drop_last()[x] == w);
                    assert(l.drop_last().contains(w));
                }
                if g.contains(w) {
                    assert(l.drop_last().contains(w));
                    let y = choose|y: int|
                        0 <= y < l.drop_last().len() && l.drop_last()[y] == w;
                    assert(l[y] == w);
                }
            }
        }
    } else {
        assert(remove_all(l, v) =~= l);
    }
}

} // verus!
