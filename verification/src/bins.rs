//! Bin storage: an unbounded set of logically isolated key-value bins
//! multiplexed onto a finite ring of back-end stores.
//!
//! A bin-scoped key is rewritten to `escape(bin) + "::" + key`.  Because
//! the escaped bin name holds no `:`, the composition is injective
//! ([`lemma_compose_key_injective`]), which is what keeps distinct bins
//! invisible to each other ([`lemma_bin_isolation`]).
//!
//! [`BinStore`] places each bin on a contiguous range of `replicas`
//! back-ends starting at the primary `hash(bin) % n`.  Writes fan out to
//! every live replica of the range; reads go to the first live replica in
//! ring order, which is how a read keeps succeeding after the primary
//! dies.
use crate::colon::{escape, escape_seq, lemma_escape_no_colon, lemma_escape_round_trip};
use crate::err::TribblerError;
use crate::storage::{
    clock_next, clock_read, count_matches, remove_all, set_result, KeyValue, MemStorage,
};
use crate::strutil::{append_str, push_char};
use vstd::arithmetic::div_mod::lemma_small_mod;
use vstd::pervasive::VecAdditionalExecFns;
use vstd::prelude::*;

verus! {

/// The physical key standing for `key` inside `bin`.
pub open spec fn compose_key_spec(bin: Seq<char>, key: Seq<char>) -> Seq<char> {
    escape_seq(bin) + seq![':', ':'] + key
}

/// Builds the physical key for a bin-scoped key.
pub fn compose_key(bin: &str, key: &str) -> (r: String)
    ensures
        r@ == compose_key_spec(bin@, key@),
{
    let mut out = escape(bin);
    push_char(&mut out, ':');
    push_char(&mut out, ':');
    append_str(&mut out, key);
    proof {
        assert(out@ =~= compose_key_spec(bin@, key@));
    }
    out
}

/// Key composition is injective: equal physical keys mean the same bin
/// and the same bin-scoped key.
pub proof fn lemma_compose_key_injective(a: Seq<char>, k1: Seq<char>, b: Seq<char>, k2: Seq<char>)
    ensures
        compose_key_spec(a, k1) == compose_key_spec(b, k2) ==> (a == b && k1 == k2),
{
    if compose_key_spec(a, k1) == compose_key_spec(b, k2) {
        let ea = escape_seq(a);
        let eb = escape_seq(b);
        let ca = compose_key_spec(a, k1);
        let cb = compose_key_spec(b, k2);
        lemma_escape_no_colon(a);
        lemma_escape_no_colon(b);
        assert(ca[ea.len() as int] == ':');
        assert(cb[eb.len() as int] == ':');
        if ea.len() < eb.len() {
            assert(cb[ea.len() as int] == eb[ea.len() as int]);
            assert(eb[ea.len() as int] != ':');
            assert(false);
        }
        if eb.len() < ea.len() {
            assert(ca[eb.len() as int] == ea[eb.len() as int]);
            assert(ea[eb.len() as int] != ':');
            assert(false);
        }
        assert forall|i: int| 0 <= i < ea.len() implies ea[i] == eb[i] by {
            assert(ca[i] == ea[i]);
            assert(cb[i] == eb[i]);
        }
        assert(ea =~= eb);
        lemma_escape_round_trip(a);
        lemma_escape_round_trip(b);
        assert(ca.len() == ea.len() + 2 + k1.len());
        assert(cb.len() == eb.len() + 2 + k2.len());
        assert(k1.len() == k2.len());
        assert forall|i: int| 0 <= i < k1.len() implies k1[i] == k2[i] by {
            assert(ca[ea.len() + 2 + i] == k1[i]);
            assert(cb[eb.len() + 2 + i] == k2[i]);
        }
        assert(k1 =~= k2);
    }
}

/// Bin isolation: for two distinct bins, no pair of bin-scoped keys ever
/// shares a physical key, so an operation inside one bin can neither
/// observe nor change a cell or a list of the other.
pub proof fn lemma_bin_isolation(
    bin_a: Seq<char>,
    key_a: Seq<char>,
    bin_b: Seq<char>,
    key_b: Seq<char>,
)
    requires
        bin_a != bin_b,
    ensures
        compose_key_spec(bin_a, key_a) != compose_key_spec(bin_b, key_b),
{
    lemma_compose_key_injective(bin_a, key_a, bin_b, key_b);
}

/// The physical prefix every key of a bin carries.
pub open spec fn bin_prefix_spec(bin: Seq<char>) -> Seq<char> {
    escape_seq(bin) + seq![':', ':']
}

/// A composed key is the bin prefix followed by the bin-scoped key.
pub proof fn lemma_compose_is_prefixed(bin: Seq<char>, key: Seq<char>)
    ensures
        compose_key_spec(bin, key) == bin_prefix_spec(bin) + key,
        crate::strutil::has_prefix(compose_key_spec(bin, key), bin_prefix_spec(bin)),
        compose_key_spec(bin, key).skip(bin_prefix_spec(bin).len() as int) == key,
{
    assert(compose_key_spec(bin, key) =~= bin_prefix_spec(bin) + key);
    let c = compose_key_spec(bin, key);
    let p = bin_prefix_spec(bin);
    assert(c.subrange(0, p.len() as int) =~= p);
    assert(c.skip(p.len() as int) =~= key);
}

/// Takes the bin prefix off a physical key; `None` for a key of another
/// bin.
pub fn strip_bin_prefix(bin: &str, k: &str) -> (r: Option<String>)
    ensures
        r matches Some(u) ==> k@ == compose_key_spec(bin@, u@),
        r is None ==> forall|u: Seq<char>| k@ != compose_key_spec(bin@, u),
{
    let prefix = compose_key(bin, "");
    proof {
        reveal_strlit("");
        assert(""@ =~= Seq::<char>::empty());
        assert(prefix@ =~= bin_prefix_spec(bin@));
    }
    if crate::strutil::str_starts_with(k, prefix.as_str()) {
        let n = k.unicode_len();
        let m = prefix.unicode_len();
        let rest = k.substring_char(m, n);
        proof {
            assert(rest@ =~= k@.skip(prefix@.len() as int));
            lemma_compose_is_prefixed(bin@, rest@);
            assert(k@ =~= compose_key_spec(bin@, rest@));
        }
        Some(rest.to_owned())
    } else {
        proof {
            assert forall|u: Seq<char>| k@ != compose_key_spec(bin@, u) by {
                if k@ == compose_key_spec(bin@, u) {
                    lemma_compose_is_prefixed(bin@, u);
                }
            }
        }
        None
    }
}

/// One step of the bin-name hash: bounded so that the executable code
/// needs no wrapping arithmetic.
pub open spec fn hash_step(h: u64, c: char) -> u64 {
    ((h % 0x4000_0000_0000) * 31 + (c as u64)) as u64
}

/// The stable hash of a bin name.
pub open spec fn bin_hash_spec(s: Seq<char>) -> u64
    decreases s.len(),
{
    if s.len() == 0 {
        0
    } else {
        hash_step(bin_hash_spec(s.drop_last()), s.last())
    }
}

/// Computes the bin-name hash.
pub fn bin_hash(name: &str) -> (h: u64)
    ensures
        h == bin_hash_spec(name@),
{
    let n = name.unicode_len();
    let mut h: u64 = 0;
    let mut i: usize = 0;
    proof {
        assert(name@.subrange(0, 0) =~= Seq::<char>::empty());
    }
    while i < n
        invariant
            n == name@.len(),
            i <= n,
            h == bin_hash_spec(name@.subrange(0, i as int)),
        decreases n - i,
    {
        let c = name.get_char(i);
        proof {
            assert(name@.subrange(0, i + 1).drop_last() =~= name@.subrange(0, i as int));
            assert(name@.subrange(0, i + 1).last() == c);
            assert((c as u64) < 0x20_0000);
        }
        h = (h % 0x4000_0000_0000) * 31 + (c as u64);
        i = i + 1;
    }
    proof {
        assert(name@.subrange(0, n as int) =~= name@);
    }
    h
}

/// `(p + r) % n` without overflow, for `p, r < n`.
fn ring_index(p: usize, r: usize, n: usize) -> (i: usize)
    requires
        n >= 1,
        p < n,
        r < n,
    ensures
        i as int == (p + r) % (n as int),
        i < n,
{
    if r < n - p {
        proof {
            lemma_small_mod((p + r) as nat, n as nat);
        }
        p + r
    } else {
        proof {
            let s = (p + r) as int;
            let m = n as int;
            assert(s % m == s - m) by (nonlinear_arith)
                requires
                    m <= s,
                    s < 2 * m,
                    m >= 1,
            ;
        }
        r - (n - p)
    }
}

/// A replicated set of back-end stores with per-bin key namespacing.
pub struct BinStore {
    backs: Vec<MemStorage>,
    live: Vec<bool>,
    replicas: usize,
}

impl BinStore {
    /// The number of back-ends on the ring.
    pub closed spec fn nback(self) -> int {
        self.backs@.len() as int
    }

    /// The store at ring position `i`.
    pub closed spec fn back_at(self, i: int) -> MemStorage {
        self.backs@[i]
    }

    /// Whether the back-end at `i` is up.
    pub closed spec fn live_at(self, i: int) -> bool {
        self.live@[i]
    }

    /// The configured replication factor.
    pub closed spec fn rfactor(self) -> int {
        self.replicas as int
    }

    /// How many replicas a bin actually spans.
    pub open spec fn rcount(self) -> int {
        if self.rfactor() <= self.nback() {
            self.rfactor()
        } else {
            self.nback()
        }
    }

    /// The primary ring position of a bin.
    pub open spec fn primary(self, bin: Seq<char>) -> int {
        bin_hash_spec(bin) as int % self.nback()
    }

    /// The ring position of the bin's `r`-th replica.
    pub open spec fn replica(self, bin: Seq<char>, r: int) -> int {
        (self.primary(bin) + r) % self.nback()
    }

    /// Whether any replica of the bin is up.
    pub open spec fn has_live_replica(self, bin: Seq<char>) -> bool {
        exists|r: int| 0 <= r < self.rcount() && self.live_at(#[trigger] self.replica(bin, r))
    }

    /// Whether a write to the bin lands on ring position `i`.
    pub open spec fn writes_to(self, bin: Seq<char>, i: int) -> bool {
        exists|r: int|
            0 <= r < self.rcount() && i == #[trigger] self.replica(bin, r) && self.live_at(i)
    }

    /// The first live replica at or after the `r`-th, or `-1`.
    pub open spec fn first_live_from(self, bin: Seq<char>, r: int) -> int
        decreases
            (if r <= self.rcount() {
                self.rcount() - r
            } else {
                0
            }),
    {
        if r >= self.rcount() {
            -1
        } else if self.live_at(self.replica(bin, r)) {
            self.replica(bin, r)
        } else {
            self.first_live_from(bin, r + 1)
        }
    }

    /// The ring position a read of the bin is served from.
    pub open spec fn read_from(self, bin: Seq<char>) -> int {
        self.first_live_from(bin, 0)
    }

    /// Well-formedness: at least one back-end, a liveness flag for each,
    /// a positive replication factor, and well-formed stores.
    pub closed spec fn wf(self) -> bool {
        &&& self.backs@.len() >= 1
        &&& self.live@.len() == self.backs@.len()
        &&& self.replicas >= 1
        &&& forall|i: int| 0 <= i < self.backs@.len() ==> (#[trigger] self.backs@[i]).wf()
    }

    /// The ring layout and liveness are the same in both states.
    pub open spec fn same_config(self, other: BinStore) -> bool {
        &&& self.nback() == other.nback()
        &&& self.rfactor() == other.rfactor()
        &&& forall|i: int| 0 <= i < self.nback() ==> self.live_at(i) == other.live_at(i)
    }

    /// Distinct replica numbers of one bin sit on distinct ring
    /// positions.
    proof fn lemma_replica_distinct(self, bin: Seq<char>, r1: int, r2: int)
        requires
            self.nback() >= 1,
            0 <= r1 < r2,
            r2 < self.nback(),
        ensures
            self.replica(bin, r1) != self.replica(bin, r2),
    {
        let n = self.nback();
        let p = self.primary(bin);
        assert(0 <= p < n) by (nonlinear_arith)
            requires
                n >= 1,
                p == bin_hash_spec(bin) as int % n,
                bin_hash_spec(bin) as int >= 0,
        ;
        let a = (p + r1) % n;
        let b = (p + r2) % n;
        assert(a == if p + r1 < n {
            p + r1
        } else {
            p + r1 - n
        }) by (nonlinear_arith)
            requires
                n >= 1,
                0 <= p < n,
                0 <= r1 < n,
                a == (p + r1) % n,
        ;
        assert(b == if p + r2 < n {
            p + r2
        } else {
            p + r2 - n
        }) by (nonlinear_arith)
            requires
                n >= 1,
                0 <= p < n,
                0 <= r2 < n,
                b == (p + r2) % n,
        ;
    }

    /// Two stores with the same ring layout and liveness route every bin
    /// the same way.
    pub proof fn lemma_routing_same_config(self, other: BinStore, bin: Seq<char>)
        requires
            self.same_config(other),
            self.nback() >= 1,
        ensures
            self.primary(bin) == other.primary(bin),
            self.rcount() == other.rcount(),
            self.read_from(bin) == other.read_from(bin),
            self.has_live_replica(bin) == other.has_live_replica(bin),
            forall|i: int| self.writes_to(bin, i) == other.writes_to(bin, i),
    {
        assert(0 <= self.primary(bin) < self.nback()) by (nonlinear_arith)
            requires
                self.nback() >= 1,
                self.primary(bin) == bin_hash_spec(bin) as int % self.nback(),
                bin_hash_spec(bin) as int >= 0,
        ;
        self.lemma_first_live_same(other, bin, 0);
        assert forall|r: int| 0 <= r < self.rcount() implies 0 <= #[trigger] self.replica(
            bin,
            r,
        ) < self.nback() by {
            let p = self.primary(bin);
            assert(0 <= (p + r) % self.nback() < self.nback()) by (nonlinear_arith)
                requires
                    self.nback() >= 1,
                    p + r >= 0,
            ;
        }
        assert forall|i: int| self.writes_to(bin, i) == other.writes_to(bin, i) by {
            if self.writes_to(bin, i) {
                let r = choose|r: int|
                    0 <= r < self.rcount() && i == #[trigger] self.replica(bin, r)
                        && self.live_at(i);
                assert(other.replica(bin, r) == self.replica(bin, r));
                assert(other.live_at(i));
                assert(other.writes_to(bin, i));
            }
            if other.writes_to(bin, i) {
                let r = choose|r: int|
                    0 <= r < other.rcount() && i == #[trigger] other.replica(bin, r)
                        && other.live_at(i);
                assert(self.replica(bin, r) == other.replica(bin, r));
                assert(0 <= i < self.nback());
                assert(self.live_at(i));
                assert(self.writes_to(bin, i));
            }
        }
        assert(self.has_live_replica(bin) == other.has_live_replica(bin)) by {
            if self.has_live_replica(bin) {
                let r = choose|r: int|
                    0 <= r < self.rcount() && self.live_at(#[trigger] self.replica(bin, r));
                assert(other.live_at(other.replica(bin, r)));
                assert(other.has_live_replica(bin));
            }
            if other.has_live_replica(bin) {
                let r = choose|r: int|
                    0 <= r < other.rcount() && other.live_at(
                        #[trigger] other.replica(bin, r),
                    );
                assert(self.live_at(self.replica(bin, r)));
                assert(self.has_live_replica(bin));
            }
        }
    }

    /// The first-live scan agrees between same-configured stores.
    proof fn lemma_first_live_same(self, other: BinStore, bin: Seq<char>, r: int)
        requires
            self.same_config(other),
            self.nback() >= 1,
            r >= 0,
        ensures
            self.first_live_from(bin, r) == other.first_live_from(bin, r),
        decreases
            (if r <= self.rcount() {
                self.rcount() - r
            } else {
                0
            }),
    {
        if r < self.rcount() {
            let i = self.replica(bin, r);
            assert(0 <= i < self.nback()) by (nonlinear_arith)
                requires
                    self.nback() >= 1,
                    self.primary(bin) >= 0,
                    i == (self.primary(bin) + r) % self.nback(),
            ;
            assert(0 <= self.primary(bin)) by (nonlinear_arith)
                requires
                    self.nback() >= 1,
                    self.primary(bin) == bin_hash_spec(bin) as int % self.nback(),
                    bin_hash_spec(bin) as int >= 0,
            ;
            self.lemma_first_live_same(other, bin, r + 1);
        }
    }

    /// A read of a bin that still has a live replica is served from a
    /// position that every write to the bin also reaches.
    pub proof fn lemma_read_sees_write(self, bin: Seq<char>)
        requires
            self.has_live_replica(bin),
        ensures
            0 <= self.read_from(bin) < self.nback() || self.nback() == 0,
            self.writes_to(bin, self.read_from(bin)),
            self.live_at(self.read_from(bin)),
    {
        self.lemma_first_live_from(bin, 0);
    }

    /// If some replica at or after `r` is live, the first live one is a
    /// live replica of the range.
    proof fn lemma_first_live_from(self, bin: Seq<char>, r: int)
        requires
            0 <= r,
            exists|r2: int|
                r <= r2 < self.rcount() && self.live_at(#[trigger] self.replica(bin, r2)),
        ensures
            exists|r2: int|
                r <= r2 < self.rcount() && self.first_live_from(bin, r) == #[trigger] self
                    .replica(bin, r2) && self.live_at(self.replica(bin, r2)),
        decreases self.rcount() - r,
    {
        if self.live_at(self.replica(bin, r)) {
        } else {
            assert(exists|r2: int|
                r + 1 <= r2 < self.rcount() && self.live_at(#[trigger] self.replica(bin, r2)));
            self.lemma_first_live_from(bin, r + 1);
        }
    }

    /// Creates a store of `n` fresh back-ends, all live, replicating each
    /// bin onto `replicas` of them.
    pub fn new(n: usize, replicas: usize) -> (s: BinStore)
        requires
            n >= 1,
            replicas >= 1,
        ensures
            s.wf(),
            s.nback() == n,
            s.rfactor() == replicas,
            forall|i: int| 0 <= i < n ==> s.live_at(i),
            forall|i: int, k: Seq<char>|
                0 <= i < n ==> #[trigger] s.back_at(i).kv_of(k) == None::<Seq<char>>,
            forall|i: int, k: Seq<char>|
                0 <= i < n ==> #[trigger] s.back_at(i).list_of(k) == Seq::<Seq<char>>::empty(),
            forall|i: int| 0 <= i < n ==> #[trigger] s.back_at(i).clock_of() == 0,
    {
        let mut backs: Vec<MemStorage> = Vec::new();
        let mut live: Vec<bool> = Vec::new();
        let mut i: usize = 0;
        while i < n
            invariant
                i <= n,
                backs@.len() == i,
                live@.len() == i,
                forall|j: int| 0 <= j < i ==> (#[trigger] backs@[j]).wf(),
                forall|j: int| 0 <= j < i ==> live@[j],
                forall|j: int, k: Seq<char>|
                    0 <= j < i ==> #[trigger] backs@[j].kv_of(k) == None::<Seq<char>>,
                forall|j: int, k: Seq<char>|
                    0 <= j < i ==> #[trigger] backs@[j].list_of(k) == Seq::<Seq<char>>::empty(),
                forall|j: int| 0 <= j < i ==> #[trigger] backs@[j].clock_of() == 0,
            decreases n - i,
        {
            backs.push(MemStorage::new());
            live.push(true);
            i = i + 1;
        }
        BinStore { backs, live, replicas }
    }

    /// Lists the bin-scoped keys of non-empty string cells matching the
    /// pattern: the pattern's prefix is rewritten with the bin prefix,
    /// the answer's keys have it stripped again.
    pub fn bin_keys(&self, bin: &str, p: &crate::storage::Pattern) -> (r: Result<
        crate::storage::List,
        TribblerError,
    >)
        requires
            self.wf(),
        ensures
            self.has_live_replica(bin@) ==> (r matches Ok(l) && ({
                let i = self.read_from(bin@);
                &&& l.0.deep_view().no_duplicates()
                &&& forall|u: Seq<char>| #[trigger]
                    l.0.deep_view().contains(u) <==> (self.back_at(i).kv_of(
                        compose_key_spec(bin@, u),
                    ) is Some && crate::strutil::has_prefix(
                        compose_key_spec(bin@, u),
                        bin_prefix_spec(bin@) + p.prefix@,
                    ) && crate::strutil::has_suffix(compose_key_spec(bin@, u), p.suffix@))
            })),
            !self.has_live_replica(bin@) ==> r is Err,
    {
        let rewritten = crate::storage::Pattern {
            prefix: compose_key(bin, p.prefix.as_str()),
            suffix: p.suffix.clone(),
        };
        proof {
            lemma_compose_is_prefixed(bin@, p.prefix@);
            assert(rewritten.prefix@ == bin_prefix_spec(bin@) + p.prefix@);
        }
        let n = self.backs.len();
        let pr = (bin_hash(bin) % (n as u64)) as usize;
        let rc = if self.replicas <= n {
            self.replicas
        } else {
            n
        };
        proof {
            assert(pr as int == self.primary(bin@)) by {
                assert(bin_hash_spec(bin@) as int % (n as int) < n as int) by (nonlinear_arith)
                    requires
                        n as int >= 1,
                        bin_hash_spec(bin@) as int >= 0,
                ;
            }
            assert(rc as int == self.rcount());
        }
        let mut r: usize = 0;
        while r < rc
            invariant
                self.wf(),
                n == self.nback(),
                pr < n,
                pr as int == self.primary(bin@),
                rc as int == self.rcount(),
                rc <= n,
                r <= rc,
                rewritten.prefix@ == bin_prefix_spec(bin@) + p.prefix@,
                rewritten.suffix@ == p.suffix@,
                forall|r2: int|
                    0 <= r2 < r ==> !self.live_at(#[trigger] self.replica(bin@, r2)),
                self.first_live_from(bin@, 0) == self.first_live_from(bin@, r as int),
            decreases rc - r,
        {
            let idx = ring_index(pr, r, n);
            proof {
                assert(idx as int == self.replica(bin@, r as int));
            }
            if self.live[idx] {
                proof {
                    assert(self.first_live_from(bin@, r as int) == idx as int);
                    assert(self.has_live_replica(bin@));
                }
                let raw = match self.backs[idx].keys(&rewritten) {
                    Ok(l) => l,
                    Err(e) => {
                        return Err(e);
                    },
                };
                let ghost rdv = raw.0.deep_view();
                proof {
                    assert forall|m: int|
                        0 <= m < rdv.len() implies crate::strutil::has_prefix(
                        #[trigger] rdv[m],
                        rewritten.prefix@,
                    ) by {
                        assert(rdv.contains(rdv[m]));
                    }
                }
                let mut out: Vec<String> = Vec::new();
                let mut j: usize = 0;
                while j < raw.0.len()
                    invariant
                        raw.0.deep_view() == rdv,
                        raw.0@.len() == rdv.len(),
                        j <= rdv.len(),
                        out@.len() == j,
                        rewritten.prefix@ == bin_prefix_spec(bin@) + p.prefix@,
                        forall|m: int|
                            0 <= m < rdv.len() ==> crate::strutil::has_prefix(
                                #[trigger] rdv[m],
                                rewritten.prefix@,
                            ),
                        forall|m: int|
                            0 <= m < j ==> rdv[m] == compose_key_spec(
                                bin@,
                                #[trigger] out.deep_view()[m],
                            ),
                    decreases rdv.len() - j,
                {
                    let ghost odv = out.deep_view();
                    proof {
                        assert(rdv[j as int] == raw.0@[j as int]@);
                    }
                    match strip_bin_prefix(bin, raw.0[j].as_str()) {
                        Some(u) => {
                            let ghost uv = u@;
                            out.push(u);
                            proof {
                                assert(out.deep_view() =~= odv.push(uv));
                                assert(rdv[j as int] == compose_key_spec(bin@, uv));
                                assert(out.deep_view()[j as int] == uv);
                                assert(forall|m: int|
                                    0 <= m < j ==> #[trigger] out.deep_view()[m] == odv[m]);
                            }
                        },
                        None => {
                            proof {
                                let k = rdv[j as int];
                                assert(crate::strutil::has_prefix(k, rewritten.prefix@));
                                let pfull = bin_prefix_spec(bin@);
                                assert(crate::strutil::has_prefix(k, pfull)) by {
                                    assert((pfull + p.prefix@).subrange(0, pfull.len() as int)
                                        =~= pfull);
                                    assert(k.subrange(0, pfull.len() as int) =~= k.subrange(
                                        0,
                                        (pfull + p.prefix@).len() as int,
                                    ).subrange(0, pfull.len() as int));
                                }
                                let u = k.skip(pfull.len() as int);
                                assert(k =~= compose_key_spec(bin@, u)) by {
                                    lemma_compose_is_prefixed(bin@, u);
                                }
                                assert(false);
                            }
                        },
                    }
                    j = j + 1;
                }
                proof {
                    assert forall|m1: int, m2: int|
                        0 <= m1 < m2 < out.deep_view().len() implies out.deep_view()[m1]
                        != out.deep_view()[m2] by {
                        if out.deep_view()[m1] == out.deep_view()[m2] {
                            lemma_compose_key_injective(
                                bin@,
                                out.deep_view()[m1],
                                bin@,
                                out.deep_view()[m2],
                            );
                            assert(rdv[m1] == rdv[m2]);
                        }
                    }
                    assert forall|u: Seq<char>| #[trigger]
                        out.deep_view().contains(u) <==> (self.back_at(idx as int).kv_of(
                            compose_key_spec(bin@, u),
                        ) is Some && crate::strutil::has_prefix(
                            compose_key_spec(bin@, u),
                            bin_prefix_spec(bin@) + p.prefix@,
                        ) && crate::strutil::has_suffix(
                            compose_key_spec(bin@, u),
                            p.suffix@,
                        )) by {
                        if out.deep_view().contains(u) {
                            let m = choose|m: int|
                                0 <= m < out.deep_view().len() && out.deep_view()[m] == u;
                            assert(rdv[m] == compose_key_spec(bin@, u));
                            assert(rdv.contains(rdv[m]));
                        }
                        if self.back_at(idx as int).kv_of(compose_key_spec(bin@, u)) is Some
                            && crate::strutil::has_prefix(
                            compose_key_spec(bin@, u),
                            bin_prefix_spec(bin@) + p.prefix@,
                        ) && crate::strutil::has_suffix(compose_key_spec(bin@, u), p.suffix@) {
                            assert(rdv.contains(compose_key_spec(bin@, u)));
                            let m = choose|m: int|
                                0 <= m < rdv.len() && rdv[m] == compose_key_spec(bin@, u);
                            lemma_compose_key_injective(bin@, out.deep_view()[m], bin@, u);
                            assert(out.deep_view()[m] == u);
                            assert(out.deep_view().contains(u));
                        }
                    }
                }
                return Ok(crate::storage::List(out));
            }
            proof {
                assert(self.first_live_from(bin@, r as int) == self.first_live_from(
                    bin@,
                    r as int + 1,
                ));
            }
            r = r + 1;
        }
        proof {
            if self.has_live_replica(bin@) {
                let r2 = choose|r2: int|
                    0 <= r2 < self.rcount() && self.live_at(#[trigger] self.replica(bin@, r2));
                assert(!self.live_at(self.replica(bin@, r2)));
            }
        }
        Err(TribblerError::RpcError(String::from_str("no live replica")))
    }

    /// Lists the bin-scoped keys of non-empty lists matching the
    /// pattern, ascending; the pattern's prefix is rewritten with the
    /// bin prefix, the answer's keys have it stripped again.
    pub fn bin_list_keys(&self, bin: &str, p: &crate::storage::Pattern) -> (r: Result<
        crate::storage::List,
        TribblerError,
    >)
        requires
            self.wf(),
        ensures
            self.has_live_replica(bin@) ==> (r matches Ok(l) && ({
                let i = self.read_from(bin@);
                &&& l.0.deep_view().no_duplicates()
                &&& vstd::relations::sorted_by(
                    l.0.deep_view(),
                    |a: Seq<char>, b: Seq<char>| crate::strutil::lex_le(a, b),
                )
                &&& forall|u: Seq<char>| #[trigger]
                    l.0.deep_view().contains(u) <==> (self.back_at(i).list_of(
                        compose_key_spec(bin@, u),
                    ).len() > 0 && crate::strutil::has_prefix(
                        compose_key_spec(bin@, u),
                        bin_prefix_spec(bin@) + p.prefix@,
                    ) && crate::strutil::has_suffix(compose_key_spec(bin@, u), p.suffix@))
            })),
            !self.has_live_replica(bin@) ==> r is Err,
    {
        let rewritten = crate::storage::Pattern {
            prefix: compose_key(bin, p.prefix.as_str()),
            suffix: p.suffix.clone(),
        };
        proof {
            lemma_compose_is_prefixed(bin@, p.prefix@);
            assert(rewritten.prefix@ == bin_prefix_spec(bin@) + p.prefix@);
        }
        let n = self.backs.len();
        let pr = (bin_hash(bin) % (n as u64)) as usize;
        let rc = if self.replicas <= n {
            self.replicas
        } else {
            n
        };
        proof {
            assert(pr as int == self.primary(bin@)) by {
                assert(bin_hash_spec(bin@) as int % (n as int) < n as int) by (nonlinear_arith)
                    requires
                        n as int >= 1,
                        bin_hash_spec(bin@) as int >= 0,
                ;
            }
            assert(rc as int == self.rcount());
        }
        let mut r: usize = 0;
        while r < rc
            invariant
                self.wf(),
                n == self.nback(),
                pr < n,
                pr as int == self.primary(bin@),
                rc as int == self.rcount(),
                rc <= n,
                r <= rc,
                rewritten.prefix@ == bin_prefix_spec(bin@) + p.prefix@,
                rewritten.suffix@ == p.suffix@,
                forall|r2: int|
                    0 <= r2 < r ==> !self.live_at(#[trigger] self.replica(bin@, r2)),
                self.first_live_from(bin@, 0) == self.first_live_from(bin@, r as int),
            decreases rc - r,
        {
            let idx = ring_index(pr, r, n);
            proof {
                assert(idx as int == self.replica(bin@, r as int));
            }
            if self.live[idx] {
                proof {
                    assert(self.first_live_from(bin@, r as int) == idx as int);
                    assert(self.has_live_replica(bin@));
                }
                let raw = match self.backs[idx].list_keys(&rewritten) {
                    Ok(l) => l,
                    Err(e) => {
                        return Err(e);
                    },
                };
                let ghost rdv = raw.0.deep_view();
                proof {
                    assert forall|m: int|
                        0 <= m < rdv.len() implies crate::strutil::has_prefix(
                        #[trigger] rdv[m],
                        rewritten.prefix@,
                    ) by {
                        assert(rdv.contains(rdv[m]));
                    }
                }
                let ghost rsorted = rdv;
                let mut out: Vec<String> = Vec::new();
                let mut j: usize = 0;
                while j < raw.0.len()
                    invariant
                        raw.0.deep_view() == rdv,
                        raw.0@.len() == rdv.len(),
                        j <= rdv.len(),
                        out@.len() == j,
                        rewritten.prefix@ == bin_prefix_spec(bin@) + p.prefix@,
                        forall|m: int|
                            0 <= m < rdv.len() ==> crate::strutil::has_prefix(
                                #[trigger] rdv[m],
                                rewritten.prefix@,
                            ),
                        forall|m: int|
                            0 <= m < j ==> rdv[m] == compose_key_spec(
                                bin@,
                                #[trigger] out.deep_view()[m],
                            ),
                    decreases rdv.len() - j,
                {
                    let ghost odv = out.deep_view();
                    proof {
                        assert(rdv[j as int] == raw.0@[j as int]@);
                    }
                    match strip_bin_prefix(bin, raw.0[j].as_str()) {
                        Some(u) => {
                            let ghost uv = u@;
                            out.push(u);
                            proof {
                                assert(out.deep_view() =~= odv.push(uv));
                                assert(rdv[j as int] == compose_key_spec(bin@, uv));
                                assert(out.deep_view()[j as int] == uv);
                                assert(forall|m: int|
                                    0 <= m < j ==> #[trigger] out.deep_view()[m] == odv[m]);
                            }
                        },
                        None => {
                            proof {
                                let k = rdv[j as int];
                                assert(crate::strutil::has_prefix(k, rewritten.prefix@));
                                let pfull = bin_prefix_spec(bin@);
                                assert(crate::strutil::has_prefix(k, pfull)) by {
                                    assert((pfull + p.prefix@).subrange(0, pfull.len() as int)
                                        =~= pfull);
                                    assert(k.subrange(0, pfull.len() as int) =~= k.subrange(
                                        0,
                                        (pfull + p.prefix@).len() as int,
                                    ).subrange(0, pfull.len() as int));
                                }
                                let u = k.skip(pfull.len() as int);
                                assert(k =~= compose_key_spec(bin@, u)) by {
                                    lemma_compose_is_prefixed(bin@, u);
                                }
                                assert(false);
                            }
                        },
                    }
                    j = j + 1;
                }
                proof {
                    assert forall|m1: int, m2: int|
                        0 <= m1 < m2 < out.deep_view().len() implies out.deep_view()[m1]
                        != out.deep_view()[m2] by {
                        if out.deep_view()[m1] == out.deep_view()[m2] {
                            lemma_compose_key_injective(
                                bin@,
                                out.deep_view()[m1],
                                bin@,
                                out.deep_view()[m2],
                            );
                            assert(rdv[m1] == rdv[m2]);
                        }
                    }
                    assert forall|u: Seq<char>| #[trigger]
                        out.deep_view().contains(u) <==> (self.back_at(idx as int).list_of(
                            compose_key_spec(bin@, u),
                        ).len() > 0 && crate::strutil::has_prefix(
                            compose_key_spec(bin@, u),
                            bin_prefix_spec(bin@) + p.prefix@,
                        ) && crate::strutil::has_suffix(
                            compose_key_spec(bin@, u),
                            p.suffix@,
                        )) by {
                        if out.deep_view().contains(u) {
                            let m = choose|m: int|
                                0 <= m < out.deep_view().len() && out.deep_view()[m] == u;
                            assert(rdv[m] == compose_key_spec(bin@, u));
                            assert(rdv.contains(rdv[m]));
                        }
                        if self.back_at(idx as int).list_of(compose_key_spec(bin@, u)).len()
                            > 0 && crate::strutil::has_prefix(
                            compose_key_spec(bin@, u),
                            bin_prefix_spec(bin@) + p.prefix@,
                        ) && crate::strutil::has_suffix(compose_key_spec(bin@, u), p.suffix@) {
                            assert(rdv.contains(compose_key_spec(bin@, u)));
                            let m = choose|m: int|
                                0 <= m < rdv.len() && rdv[m] == compose_key_spec(bin@, u);
                            lemma_compose_key_injective(bin@, out.deep_view()[m], bin@, u);
                            assert(out.deep_view()[m] == u);
                            assert(out.deep_view().contains(u));
                        }
                    }
                }
                proof {
                    let odv = out.deep_view();
                    let leq = |a: Seq<char>, b: Seq<char>| crate::strutil::lex_le(a, b);
                    assert forall|m1: int, m2: int|
                        0 <= m1 < m2 < odv.len() implies leq(odv[m1], odv[m2]) by {
                        assert(rdv[m1] == compose_key_spec(bin@, odv[m1]));
                        assert(rdv[m2] == compose_key_spec(bin@, odv[m2]));
                        lemma_compose_is_prefixed(bin@, odv[m1]);
                        lemma_compose_is_prefixed(bin@, odv[m2]);
                        crate::strutil::lemma_lex_le_common_prefix(
                            bin_prefix_spec(bin@),
                            odv[m1],
                            odv[m2],
                        );
                        assert(crate::strutil::lex_le(rdv[m1], rdv[m2]));
                    }
                }
                return Ok(crate::storage::List(out));
            }
            proof {
                assert(self.first_live_from(bin@, r as int) == self.first_live_from(
                    bin@,
                    r as int + 1,
                ));
            }
            r = r + 1;
        }
        proof {
            if self.has_live_replica(bin@) {
                let r2 = choose|r2: int|
                    0 <= r2 < self.rcount() && self.live_at(#[trigger] self.replica(bin@, r2));
                assert(!self.live_at(self.replica(bin@, r2)));
            }
        }
        Err(TribblerError::RpcError(String::from_str("no live replica")))
    }

    /// Reads a bin-scoped string cell from the first live replica of the
    /// bin's range, in ring order.
    pub fn bin_get(&self, bin: &str, key: &str) -> (r: Result<Option<String>, TribblerError>)
        requires
            self.wf(),
        ensures
            r matches Err(e) ==> e matches TribblerError::RpcError(_),
            self.has_live_replica(bin@) ==> (r matches Ok(v) && v.deep_view() == self.back_at(
                self.read_from(bin@),
            ).kv_of(compose_key_spec(bin@, key@))),
            !self.has_live_replica(bin@) ==> r is Err,
    {
        let ckey = compose_key(bin, key);
        let n = self.backs.len();
        let p = (bin_hash(bin) % (n as u64)) as usize;
        let rc = if self.replicas <= n {
            self.replicas
        } else {
            n
        };
        proof {
            assert(p as int == self.primary(bin@)) by {
                assert(bin_hash_spec(bin@) as int % (n as int) < n as int) by (nonlinear_arith)
                    requires
                        n as int >= 1,
                        bin_hash_spec(bin@) as int >= 0,
                ;
            }
            assert(rc as int == self.rcount());
        }
        let mut r: usize = 0;
        while r < rc
            invariant
                self.wf(),
                n == self.nback(),
                p < n,
                p as int == self.primary(bin@),
                rc as int == self.rcount(),
                rc <= n,
                r <= rc,
                ckey@ == compose_key_spec(bin@, key@),
                forall|r2: int|
                    0 <= r2 < r ==> !self.live_at(#[trigger] self.replica(bin@, r2)),
                self.first_live_from(bin@, 0) == self.first_live_from(bin@, r as int),
            decreases rc - r,
        {
            let idx = ring_index(p, r, n);
            proof {
                assert(idx as int == self.replica(bin@, r as int));
            }
            if self.live[idx] {
                proof {
                    assert(self.live_at(idx as int));
                    assert(self.first_live_from(bin@, r as int) == idx as int);
                    assert(self.read_from(bin@) == idx as int);
                    assert(self.has_live_replica(bin@));
                }
                return self.backs[idx].get(ckey.as_str());
            }
            proof {
                assert(!self.live_at(self.replica(bin@, r as int)));
                assert(self.first_live_from(bin@, r as int) == self.first_live_from(
                    bin@,
                    r as int + 1,
                ));
            }
            r = r + 1;
        }
        proof {
            if self.has_live_replica(bin@) {
                let r2 = choose|r2: int|
                    0 <= r2 < self.rcount() && self.live_at(#[trigger] self.replica(bin@, r2));
                assert(!self.live_at(self.replica(bin@, r2)));
            }
        }
        Err(TribblerError::RpcError(String::from_str("no live replica")))
    }

    /// Reads a bin-scoped list from the first live replica of the bin's
    /// range, in ring order.
    pub fn bin_list_get(&self, bin: &str, key: &str) -> (r: Result<
        crate::storage::List,
        TribblerError,
    >)
        requires
            self.wf(),
        ensures
            r matches Err(e) ==> e matches TribblerError::RpcError(_),
            self.has_live_replica(bin@) ==> (r matches Ok(l) && l.0.deep_view() == self.back_at(
                self.read_from(bin@),
            ).list_of(compose_key_spec(bin@, key@))),
            !self.has_live_replica(bin@) ==> r is Err,
    {
        let ckey = compose_key(bin, key);
        let n = self.backs.len();
        let p = (bin_hash(bin) % (n as u64)) as usize;
        let rc = if self.replicas <= n {
            self.replicas
        } else {
            n
        };
        proof {
            assert(p as int == self.primary(bin@)) by {
                assert(bin_hash_spec(bin@) as int % (n as int) < n as int) by (nonlinear_arith)
                    requires
                        n as int >= 1,
                        bin_hash_spec(bin@) as int >= 0,
                ;
            }
            assert(rc as int == self.rcount());
        }
        let mut r: usize = 0;
        while r < rc
            invariant
                self.wf(),
                n == self.nback(),
                p < n,
                p as int == self.primary(bin@),
                rc as int == self.rcount(),
                rc <= n,
                r <= rc,
                ckey@ == compose_key_spec(bin@, key@),
                forall|r2: int|
                    0 <= r2 < r ==> !self.live_at(#[trigger] self.replica(bin@, r2)),
                self.first_live_from(bin@, 0) == self.first_live_from(bin@, r as int),
            decreases rc - r,
        {
            let idx = ring_index(p, r, n);
            proof {
                assert(idx as int == self.replica(bin@, r as int));
            }
            if self.live[idx] {
                proof {
                    assert(self.first_live_from(bin@, r as int) == idx as int);
                    assert(self.has_live_replica(bin@));
                }
                return self.backs[idx].list_get(ckey.as_str());
            }
            proof {
                assert(self.first_live_from(bin@, r as int) == self.first_live_from(
                    bin@,
                    r as int + 1,
                ));
            }
            r = r + 1;
        }
        proof {
            if self.has_live_replica(bin@) {
                let r2 = choose|r2: int|
                    0 <= r2 < self.rcount() && self.live_at(#[trigger] self.replica(bin@, r2));
                assert(!self.live_at(self.replica(bin@, r2)));
            }
        }
        Err(TribblerError::RpcError(String::from_str("no live replica")))
    }

    /// Writes a bin-scoped string cell to every live replica of the bin's
    /// range.  Succeeds when at least one replica took the write.
    pub fn bin_set(&mut self, bin: &str, kv: &KeyValue) -> (r: Result<bool, TribblerError>)
        requires
            old(self).wf(),
        ensures
            r matches Err(e) ==> e matches TribblerError::RpcError(_),
            final(self).wf(),
            final(self).same_config(*old(self)),
            r is Ok <==> old(self).has_live_replica(bin@),
            r is Ok ==> r == Ok::<bool, TribblerError>(true),
            forall|i: int, k: Seq<char>|
                0 <= i < old(self).nback() ==> #[trigger] final(self).back_at(i).kv_of(k)
                    == if old(self).writes_to(bin@, i) && k == compose_key_spec(bin@, kv.key@) {
                    set_result(old(self).back_at(i).kv_of(k), k, k, kv.value@)
                } else {
                    old(self).back_at(i).kv_of(k)
                },
            forall|i: int, k: Seq<char>|
                0 <= i < old(self).nback() ==> #[trigger] final(self).back_at(i).list_of(k)
                    == old(self).back_at(i).list_of(k),
            forall|i: int|
                0 <= i < old(self).nback() ==> #[trigger] final(self).back_at(i).clock_of()
                    == old(self).back_at(i).clock_of(),
    {
        let ckey = compose_key(bin, kv.key.as_str());
        let ckv = KeyValue { key: ckey, value: kv.value.clone() };
        let n = self.backs.len();
        let p = (bin_hash(bin) % (n as u64)) as usize;
        let rc = if self.replicas <= n {
            self.replicas
        } else {
            n
        };
        proof {
            assert(p as int == old(self).primary(bin@)) by {
                assert(bin_hash_spec(bin@) as int % (n as int) < n as int) by (nonlinear_arith)
                    requires
                        n as int >= 1,
                        bin_hash_spec(bin@) as int >= 0,
                ;
            }
            assert(rc as int == old(self).rcount());
        }
        let mut wrote = false;
        let mut r: usize = 0;
        while r < rc
            invariant
                self.wf(),
                self.nback() == old(self).nback(),
                self.rfactor() == old(self).rfactor(),
                forall|i: int|
                    0 <= i < self.nback() ==> self.live_at(i) == old(self).live_at(i),
                n == self.nback(),
                p < n,
                p as int == old(self).primary(bin@),
                rc as int == old(self).rcount(),
                rc <= n,
                r <= rc,
                ckv.key@ == compose_key_spec(bin@, kv.key@),
                ckv.value@ == kv.value@,
                wrote == exists|r2: int|
                    0 <= r2 < r && old(self).live_at(#[trigger] old(self).replica(bin@, r2)),
                forall|i: int, k: Seq<char>|
                    0 <= i < n ==> #[trigger] self.back_at(i).kv_of(k) == if (exists|r2: int|
                        0 <= r2 < r && i == #[trigger] old(self).replica(bin@, r2) && old(
                            self,
                        ).live_at(i)) && k == compose_key_spec(bin@, kv.key@) {
                        set_result(old(self).back_at(i).kv_of(k), k, k, kv.value@)
                    } else {
                        old(self).back_at(i).kv_of(k)
                    },
                forall|i: int, k: Seq<char>|
                    0 <= i < n ==> #[trigger] self.back_at(i).list_of(k) == old(self).back_at(
                        i,
                    ).list_of(k),
                forall|i: int|
                    0 <= i < n ==> #[trigger] self.back_at(i).clock_of() == old(self).back_at(
                        i,
                    ).clock_of(),
            decreases rc - r,
        {
            let idx = ring_index(p, r, n);
            proof {
                assert(idx as int == old(self).replica(bin@, r as int));
                assert(self.live_at(idx as int) == old(self).live_at(idx as int));
            }
            if self.live[idx] {
                let ghost pre = *self;
                let _ = self.backs[idx].set(&ckv);
                wrote = true;
                proof {
                    assert(self.backs@ =~= pre.backs@.update(
                        idx as int,
                        self.backs@[idx as int],
                    ));
                    assert forall|i: int, k: Seq<char>|
                        0 <= i < n implies #[trigger] self.back_at(i).kv_of(k) == if (
                    exists|r2: int|
                        0 <= r2 < r + 1 && i == #[trigger] old(self).replica(bin@, r2) && old(
                            self,
                        ).live_at(i)) && k == compose_key_spec(bin@, kv.key@) {
                        set_result(old(self).back_at(i).kv_of(k), k, k, kv.value@)
                    } else {
                        old(self).back_at(i).kv_of(k)
                    } by {
                        if i == idx as int {
                            assert(self.back_at(i).kv_of(k) == set_result(
                                pre.back_at(i).kv_of(k),
                                k,
                                ckv.key@,
                                kv.value@,
                            ));
                        } else {
                            assert(self.back_at(i) == pre.back_at(i));
                        }
                    }
                    assert forall|i: int, k: Seq<char>|
                        0 <= i < n implies #[trigger] self.back_at(i).list_of(k) == old(
                        self,
                    ).back_at(i).list_of(k) by {
                        if i == idx as int {
                            assert(self.back_at(i).list_of(k) == pre.back_at(i).list_of(k));
                        } else {
                            assert(self.back_at(i) == pre.back_at(i));
                        }
                    }
                    assert forall|i: int|
                        0 <= i < n implies #[trigger] self.back_at(i).clock_of() == old(
                        self,
                    ).back_at(i).clock_of() by {
                        if i == idx as int {
                            assert(self.back_at(i).clock_of() == pre.back_at(i).clock_of());
                        } else {
                            assert(self.back_at(i) == pre.back_at(i));
                        }
                    }
                }
            } else {
                proof {
                    assert forall|r2: int|
                        0 <= r2 < r + 1 && old(self).live_at(
                            #[trigger] old(self).replica(bin@, r2),
                        ) implies r2 < r by {
                        if r2 == r {
                            assert(old(self).replica(bin@, r2) == idx as int);
                        }
                    }
                }
            }
            r = r + 1;
        }
        if wrote {
            Ok(true)
        } else {
            proof {
                if old(self).has_live_replica(bin@) {
                    let r2 = choose|r2: int|
                        0 <= r2 < old(self).rcount() && old(self).live_at(
                            #[trigger] old(self).replica(bin@, r2),
                        );
                    assert(false);
                }
            }
            Err(TribblerError::RpcError(String::from_str("no live replica")))
        }
    }

    /// Appends to a bin-scoped list on every live replica of the bin's
    /// range.
    pub fn bin_list_append(&mut self, bin: &str, kv: &KeyValue) -> (r: Result<
        bool,
        TribblerError,
    >)
        requires
            old(self).wf(),
        ensures
            r matches Err(e) ==> e matches TribblerError::RpcError(_),
            final(self).wf(),
            final(self).same_config(*old(self)),
            r is Ok <==> old(self).has_live_replica(bin@),
            r is Ok ==> r == Ok::<bool, TribblerError>(true),
            forall|i: int, k: Seq<char>|
                0 <= i < old(self).nback() ==> #[trigger] final(self).back_at(i).list_of(k)
                    == if old(self).writes_to(bin@, i) && k == compose_key_spec(bin@, kv.key@) {
                    old(self).back_at(i).list_of(k).push(kv.value@)
                } else {
                    old(self).back_at(i).list_of(k)
                },
            forall|i: int, k: Seq<char>|
                0 <= i < old(self).nback() ==> #[trigger] final(self).back_at(i).kv_of(k) == old(
                    self,
                ).back_at(i).kv_of(k),
            forall|i: int|
                0 <= i < old(self).nback() ==> #[trigger] final(self).back_at(i).clock_of()
                    == old(self).back_at(i).clock_of(),
    {
        let ckey = compose_key(bin, kv.key.as_str());
        let ckv = KeyValue { key: ckey, value: kv.value.clone() };
        let n = self.backs.len();
        let p = (bin_hash(bin) % (n as u64)) as usize;
        let rc = if self.replicas <= n {
            self.replicas
        } else {
            n
        };
        proof {
            assert(p as int == old(self).primary(bin@)) by {
                assert(bin_hash_spec(bin@) as int % (n as int) < n as int) by (nonlinear_arith)
                    requires
                        n as int >= 1,
                        bin_hash_spec(bin@) as int >= 0,
                ;
            }
            assert(rc as int == old(self).rcount());
        }
        let mut wrote = false;
        let mut r: usize = 0;
        while r < rc
            invariant
                self.wf(),
                self.nback() == old(self).nback(),
                self.rfactor() == old(self).rfactor(),
                forall|i: int|
                    0 <= i < self.nback() ==> self.live_at(i) == old(self).live_at(i),
                n == self.nback(),
                p < n,
                p as int == old(self).primary(bin@),
                rc as int == old(self).rcount(),
                rc <= n,
                r <= rc,
                ckv.key@ == compose_key_spec(bin@, kv.key@),
                ckv.value@ == kv.value@,
                wrote == exists|r2: int|
                    0 <= r2 < r && old(self).live_at(#[trigger] old(self).replica(bin@, r2)),
                forall|i: int, k: Seq<char>|
                    0 <= i < n ==> #[trigger] self.back_at(i).list_of(k) == if (exists|r2: int|
                        0 <= r2 < r && i == #[trigger] old(self).replica(bin@, r2) && old(
                            self,
                        ).live_at(i)) && k == compose_key_spec(bin@, kv.key@) {
                        old(self).back_at(i).list_of(k).push(kv.value@)
                    } else {
                        old(self).back_at(i).list_of(k)
                    },
                forall|i: int, k: Seq<char>|
                    0 <= i < n ==> #[trigger] self.back_at(i).kv_of(k) == old(self).back_at(
                        i,
                    ).kv_of(k),
                forall|i: int|
                    0 <= i < n ==> #[trigger] self.back_at(i).clock_of() == old(self).back_at(
                        i,
                    ).clock_of(),
            decreases rc - r,
        {
            let idx = ring_index(p, r, n);
            proof {
                assert(idx as int == old(self).replica(bin@, r as int));
                assert(self.live_at(idx as int) == old(self).live_at(idx as int));
            }
            if self.live[idx] {
                let ghost pre = *self;
                let _ = self.backs[idx].list_append(&ckv);
                wrote = true;
                proof {
                    assert(self.backs@ =~= pre.backs@.update(
                        idx as int,
                        self.backs@[idx as int],
                    ));
                    assert forall|r2: int| 0 <= r2 < r implies old(self).replica(
                        bin@,
                        r2,
                    ) != idx as int by {
                        old(self).lemma_replica_distinct(bin@, r2, r as int);
                    }
                    assert forall|i: int, k: Seq<char>|
                        0 <= i < n implies #[trigger] self.back_at(i).list_of(k) == if (
                    exists|r2: int|
                        0 <= r2 < r + 1 && i == #[trigger] old(self).replica(bin@, r2) && old(
                            self,
                        ).live_at(i)) && k == compose_key_spec(bin@, kv.key@) {
                        old(self).back_at(i).list_of(k).push(kv.value@)
                    } else {
                        old(self).back_at(i).list_of(k)
                    } by {
                        if i == idx as int {
                            assert(self.back_at(i).list_of(k) == if k == ckv.key@ {
                                pre.back_at(i).list_of(k).push(kv.value@)
                            } else {
                                pre.back_at(i).list_of(k)
                            });
                        } else {
                            assert(self.back_at(i) == pre.back_at(i));
                        }
                    }
                    assert forall|i: int, k: Seq<char>|
                        0 <= i < n implies #[trigger] self.back_at(i).kv_of(k) == old(
                        self,
                    ).back_at(i).kv_of(k) by {
                        if i == idx as int {
                            assert(self.back_at(i).kv_of(k) == pre.back_at(i).kv_of(k));
                        } else {
                            assert(self.back_at(i) == pre.back_at(i));
                        }
                    }
                    assert forall|i: int|
                        0 <= i < n implies #[trigger] self.back_at(i).clock_of() == old(
                        self,
                    ).back_at(i).clock_of() by {
                        if i == idx as int {
                            assert(self.back_at(i).clock_of() == pre.back_at(i).clock_of());
                        } else {
                            assert(self.back_at(i) == pre.back_at(i));
                        }
                    }
                }
            } else {
                proof {
                    assert forall|r2: int|
                        0 <= r2 < r + 1 && old(self).live_at(
                            #[trigger] old(self).replica(bin@, r2),
                        ) implies r2 < r by {
                        if r2 == r {
                            assert(old(self).replica(bin@, r2) == idx as int);
                        }
                    }
                }
            }
            r = r + 1;
        }
        if wrote {
            Ok(true)
        } else {
            proof {
                if old(self).has_live_replica(bin@) {
                    let r2 = choose|r2: int|
                        0 <= r2 < old(self).rcount() && old(self).live_at(
                            #[trigger] old(self).replica(bin@, r2),
                        );
                    assert(false);
                }
            }
            Err(TribblerError::RpcError(String::from_str("no live replica")))
        }
    }

    /// Removes every copy of a value from a bin-scoped list on every live
    /// replica.  The reported count comes from the replica reads are
    /// served from.
    pub fn bin_list_remove(&mut self, bin: &str, kv: &KeyValue) -> (r: Result<
        u32,
        TribblerError,
    >)
        requires
            old(self).wf(),
        ensures
            r matches Err(e) ==> e matches TribblerError::RpcError(_),
            final(self).wf(),
            final(self).same_config(*old(self)),
            r is Ok <==> old(self).has_live_replica(bin@),
            forall|i: int, k: Seq<char>|
                0 <= i < old(self).nback() ==> #[trigger] final(self).back_at(i).list_of(k)
                    == if old(self).writes_to(bin@, i) && k == compose_key_spec(bin@, kv.key@) {
                    remove_all(old(self).back_at(i).list_of(k), kv.value@)
                } else {
                    old(self).back_at(i).list_of(k)
                },
            forall|i: int, k: Seq<char>|
                0 <= i < old(self).nback() ==> #[trigger] final(self).back_at(i).kv_of(k) == old(
                    self,
                ).back_at(i).kv_of(k),
            forall|i: int|
                0 <= i < old(self).nback() ==> #[trigger] final(self).back_at(i).clock_of()
                    == old(self).back_at(i).clock_of(),
            r matches Ok(c) ==> ({
                let cnt = count_matches(
                    old(self).back_at(old(self).read_from(bin@)).list_of(
                        compose_key_spec(bin@, kv.key@),
                    ),
                    kv.value@,
                );
                cnt <= u32::MAX as nat ==> c as nat == cnt
            }),
    {
        let ckey = compose_key(bin, kv.key.as_str());
        let ckv = KeyValue { key: ckey, value: kv.value.clone() };
        let n = self.backs.len();
        let p = (bin_hash(bin) % (n as u64)) as usize;
        let rc = if self.replicas <= n {
            self.replicas
        } else {
            n
        };
        proof {
            assert(p as int == old(self).primary(bin@)) by {
                assert(bin_hash_spec(bin@) as int % (n as int) < n as int) by (nonlinear_arith)
                    requires
                        n as int >= 1,
                        bin_hash_spec(bin@) as int >= 0,
                ;
            }
            assert(rc as int == old(self).rcount());
        }
        let mut wrote = false;
        let mut cnt: u32 = 0;
        let mut r: usize = 0;
        while r < rc
            invariant
                self.wf(),
                self.nback() == old(self).nback(),
                self.rfactor() == old(self).rfactor(),
                forall|i: int|
                    0 <= i < self.nback() ==> self.live_at(i) == old(self).live_at(i),
                n == self.nback(),
                p < n,
                p as int == old(self).primary(bin@),
                rc as int == old(self).rcount(),
                rc <= n,
                r <= rc,
                ckv.key@ == compose_key_spec(bin@, kv.key@),
                ckv.value@ == kv.value@,
                wrote == exists|r2: int|
                    0 <= r2 < r && old(self).live_at(#[trigger] old(self).replica(bin@, r2)),
                !wrote ==> old(self).first_live_from(bin@, 0) == old(self).first_live_from(
                    bin@,
                    r as int,
                ),
                wrote ==> ({
                    let cm = count_matches(
                        old(self).back_at(old(self).read_from(bin@)).list_of(
                            compose_key_spec(bin@, kv.key@),
                        ),
                        kv.value@,
                    );
                    cm <= u32::MAX as nat ==> cnt as nat == cm
                }),
                forall|i: int, k: Seq<char>|
                    0 <= i < n ==> #[trigger] self.back_at(i).list_of(k) == if (exists|r2: int|
                        0 <= r2 < r && i == #[trigger] old(self).replica(bin@, r2) && old(
                            self,
                        ).live_at(i)) && k == compose_key_spec(bin@, kv.key@) {
                        remove_all(old(self).back_at(i).list_of(k), kv.value@)
                    } else {
                        old(self).back_at(i).list_of(k)
                    },
                forall|i: int, k: Seq<char>|
                    0 <= i < n ==> #[trigger] self.back_at(i).kv_of(k) == old(self).back_at(
                        i,
                    ).kv_of(k),
                forall|i: int|
                    0 <= i < n ==> #[trigger] self.back_at(i).clock_of() == old(self).back_at(
                        i,
                    ).clock_of(),
            decreases rc - r,
        {
            let idx = ring_index(p, r, n);
            proof {
                assert(idx as int == old(self).replica(bin@, r as int));
                assert(self.live_at(idx as int) == old(self).live_at(idx as int));
            }
            if self.live[idx] {
                let ghost pre = *self;
                let ghost was_first = !wrote;
                let res = self.backs[idx].list_remove(&ckv);
                proof {
                    if was_first {
                        assert(old(self).first_live_from(bin@, r as int) == idx as int);
                        assert(old(self).read_from(bin@) == idx as int);
                        assert(pre.back_at(idx as int).list_of(ckv.key@) == old(self).back_at(
                            idx as int,
                        ).list_of(ckv.key@));
                    }
                }
                if !wrote {
                    cnt = match res {
                        Ok(c) => c,
                        Err(_) => 0,
                    };
                    wrote = true;
                }
                proof {
                    assert(self.backs@ =~= pre.backs@.update(
                        idx as int,
                        self.backs@[idx as int],
                    ));
                    assert forall|r2: int| 0 <= r2 < r implies old(self).replica(
                        bin@,
                        r2,
                    ) != idx as int by {
                        old(self).lemma_replica_distinct(bin@, r2, r as int);
                    }
                    assert forall|i: int, k: Seq<char>|
                        0 <= i < n implies #[trigger] self.back_at(i).list_of(k) == if (
                    exists|r2: int|
                        0 <= r2 < r + 1 && i == #[trigger] old(self).replica(bin@, r2) && old(
                            self,
                        ).live_at(i)) && k == compose_key_spec(bin@, kv.key@) {
                        remove_all(old(self).back_at(i).list_of(k), kv.value@)
                    } else {
                        old(self).back_at(i).list_of(k)
                    } by {
                        if i == idx as int {
                            assert(self.back_at(i).list_of(k) == if k == ckv.key@ {
                                remove_all(pre.back_at(i).list_of(k), ckv.value@)
                            } else {
                                pre.back_at(i).list_of(k)
                            });
                        } else {
                            assert(self.back_at(i) == pre.back_at(i));
                        }
                    }
                    assert forall|i: int, k: Seq<char>|
                        0 <= i < n implies #[trigger] self.back_at(i).kv_of(k) == old(
                        self,
                    ).back_at(i).kv_of(k) by {
                        if i == idx as int {
                            assert(self.back_at(i).kv_of(k) == pre.back_at(i).kv_of(k));
                        } else {
                            assert(self.back_at(i) == pre.back_at(i));
                        }
                    }
                    assert forall|i: int|
                        0 <= i < n implies #[trigger] self.back_at(i).clock_of() == old(
                        self,
                    ).back_at(i).clock_of() by {
                        if i == idx as int {
                            assert(self.back_at(i).clock_of() == pre.back_at(i).clock_of());
                        } else {
                            assert(self.back_at(i) == pre.back_at(i));
                        }
                    }
                }
            } else {
                proof {
                    assert forall|r2: int|
                        0 <= r2 < r + 1 && old(self).live_at(
                            #[trigger] old(self).replica(bin@, r2),
                        ) implies r2 < r by {
                        if r2 == r {
                            assert(old(self).replica(bin@, r2) == idx as int);
                        }
                    }
                    assert(old(self).first_live_from(bin@, r as int) == old(
                        self,
                    ).first_live_from(bin@, r as int + 1));
                }
            }
            r = r + 1;
        }
        if wrote {
            Ok(cnt)
        } else {
            proof {
                if old(self).has_live_replica(bin@) {
                    let r2 = choose|r2: int|
                        0 <= r2 < old(self).rcount() && old(self).live_at(
                            #[trigger] old(self).replica(bin@, r2),
                        );
                    assert(false);
                }
            }
            Err(TribblerError::RpcError(String::from_str("no live replica")))
        }
    }

    /// Reads the clock of the first live replica of the bin's range,
    /// bumping it to at least `at_least`.
    pub fn bin_clock(&mut self, bin: &str, at_least: u64) -> (r: Result<u64, TribblerError>)
        requires
            old(self).wf(),
        ensures
            r matches Err(e) ==> e matches TribblerError::RpcError(_),
            final(self).wf(),
            final(self).same_config(*old(self)),
            r is Ok <==> old(self).has_live_replica(bin@),
            old(self).has_live_replica(bin@) ==> ({
                let i = old(self).read_from(bin@);
                &&& r == Ok::<u64, TribblerError>(
                    clock_read(old(self).back_at(i).clock_of(), at_least),
                )
                &&& final(self).back_at(i).clock_of() == clock_next(
                    old(self).back_at(i).clock_of(),
                    at_least,
                )
            }),
            forall|i: int|
                0 <= i < old(self).nback() && i != old(self).read_from(bin@)
                    ==> #[trigger] final(self).back_at(i).clock_of() == old(self).back_at(
                    i,
                ).clock_of(),
            forall|i: int, k: Seq<char>|
                0 <= i < old(self).nback() ==> #[trigger] final(self).back_at(i).kv_of(k) == old(
                    self,
                ).back_at(i).kv_of(k),
            forall|i: int, k: Seq<char>|
                0 <= i < old(self).nback() ==> #[trigger] final(self).back_at(i).list_of(k)
                    == old(self).back_at(i).list_of(k),
    {
        let n = self.backs.len();
        let p = (bin_hash(bin) % (n as u64)) as usize;
        let rc = if self.replicas <= n {
            self.replicas
        } else {
            n
        };
        proof {
            assert(p as int == old(self).primary(bin@)) by {
                assert(bin_hash_spec(bin@) as int % (n as int) < n as int) by (nonlinear_arith)
                    requires
                        n as int >= 1,
                        bin_hash_spec(bin@) as int >= 0,
                ;
            }
            assert(rc as int == old(self).rcount());
        }
        let mut r: usize = 0;
        while r < rc
            invariant
                self == old(self),
                self.wf(),
                n == self.nback(),
                p < n,
                p as int == self.primary(bin@),
                rc as int == self.rcount(),
                rc <= n,
                r <= rc,
                forall|r2: int|
                    0 <= r2 < r ==> !self.live_at(#[trigger] self.replica(bin@, r2)),
                self.first_live_from(bin@, 0) == self.first_live_from(bin@, r as int),
            decreases rc - r,
        {
            let idx = ring_index(p, r, n);
            proof {
                assert(idx as int == self.replica(bin@, r as int));
            }
            if self.live[idx] {
                proof {
                    assert(self.first_live_from(bin@, r as int) == idx as int);
                    assert(old(self).read_from(bin@) == idx as int);
                    assert(old(self).has_live_replica(bin@));
                }
                let ghost pre = *self;
                let res = self.backs[idx].clock(at_least);
                proof {
                    assert(self.backs@ =~= pre.backs@.update(
                        idx as int,
                        self.backs@[idx as int],
                    ));
                    assert forall|i: int, k: Seq<char>|
                        0 <= i < n implies #[trigger] self.back_at(i).kv_of(k) == old(
                        self,
                    ).back_at(i).kv_of(k) by {
                        if i == idx as int {
                            assert(self.back_at(i).kv_of(k) == pre.back_at(i).kv_of(k));
                        } else {
                            assert(self.back_at(i) == pre.back_at(i));
                        }
                    }
                    assert forall|i: int, k: Seq<char>|
                        0 <= i < n implies #[trigger] self.back_at(i).list_of(k) == old(
                        self,
                    ).back_at(i).list_of(k) by {
                        if i == idx as int {
                            assert(self.back_at(i).list_of(k) == pre.back_at(i).list_of(k));
                        } else {
                            assert(self.back_at(i) == pre.back_at(i));
                        }
                    }
                    assert forall|i: int|
                        0 <= i < n && i != old(self).read_from(bin@) implies #[trigger] self
                        .back_at(i).clock_of() == old(self).back_at(i).clock_of() by {
                        assert(self.back_at(i) == pre.back_at(i));
                    }
                }
                return res;
            }
            proof {
                assert(self.first_live_from(bin@, r as int) == self.first_live_from(
                    bin@,
                    r as int + 1,
                ));
            }
            r = r + 1;
        }
        proof {
            if old(self).has_live_replica(bin@) {
                let r2 = choose|r2: int|
                    0 <= r2 < self.rcount() && self.live_at(#[trigger] self.replica(bin@, r2));
                assert(!self.live_at(self.replica(bin@, r2)));
            }
        }
        Err(TribblerError::RpcError(String::from_str("no live replica")))
    }

    /// The number of back-ends, as a machine integer.
    pub fn back_count(&self) -> (n: usize)
        ensures
            n == self.nback(),
    {
        self.backs.len()
    }

    /// Whether the back-end at `i` is currently marked live.
    pub fn is_live(&self, i: usize) -> (r: bool)
        requires
            self.wf(),
            i < self.nback(),
        ensures
            r == self.live_at(i as int),
    {
        self.live[i]
    }

    /// Reads the clock of the back-end at `i` without raising it: the
    /// keeper's probe.
    pub fn probe_clock(&mut self, i: usize) -> (c: u64)
        requires
            old(self).wf(),
            i < old(self).nback(),
        ensures
            final(self).wf(),
            final(self).same_config(*old(self)),
            c == old(self).back_at(i as int).clock_of(),
            final(self).back_at(i as int).clock_of() == clock_next(
                old(self).back_at(i as int).clock_of(),
                0,
            ),
            forall|j: int|
                0 <= j < old(self).nback() && j != i ==> #[trigger] final(self).back_at(
                    j,
                ).clock_of() == old(self).back_at(j).clock_of(),
            forall|j: int, k: Seq<char>|
                0 <= j < old(self).nback() ==> #[trigger] final(self).back_at(j).kv_of(k)
                    == old(self).back_at(j).kv_of(k),
            forall|j: int, k: Seq<char>|
                0 <= j < old(self).nback() ==> #[trigger] final(self).back_at(j).list_of(k)
                    == old(self).back_at(j).list_of(k),
    {
        let ghost pre = *self;
        let res = self.backs[i].clock(0);
        proof {
            assert(self.backs@ =~= pre.backs@.update(i as int, self.backs@[i as int]));
            assert forall|j: int, k: Seq<char>|
                0 <= j < old(self).nback() implies #[trigger] self.back_at(j).kv_of(k) == old(
                self,
            ).back_at(j).kv_of(k) by {
                if j == i as int {
                    assert(self.back_at(j).kv_of(k) == pre.back_at(j).kv_of(k));
                } else {
                    assert(self.back_at(j) == pre.back_at(j));
                }
            }
            assert forall|j: int, k: Seq<char>|
                0 <= j < old(self).nback() implies #[trigger] self.back_at(j).list_of(k)
                == old(self).back_at(j).list_of(k) by {
                if j == i as int {
                    assert(self.back_at(j).list_of(k) == pre.back_at(j).list_of(k));
                } else {
                    assert(self.back_at(j) == pre.back_at(j));
                }
            }
            assert forall|j: int|
                0 <= j < old(self).nback() && j != i implies #[trigger] self.back_at(
                j,
            ).clock_of() == old(self).back_at(j).clock_of() by {
                assert(self.back_at(j) == pre.back_at(j));
            }
        }
        match res {
            Ok(c) => c,
            Err(_) => 0,
        }
    }

    /// Raises the clock of the back-end at `i` to at least `floor`: the
    /// keeper's write-back.
    pub fn floor_clock(&mut self, i: usize, floor: u64) -> (c: u64)
        requires
            old(self).wf(),
            i < old(self).nback(),
        ensures
            final(self).wf(),
            final(self).same_config(*old(self)),
            c == clock_read(old(self).back_at(i as int).clock_of(), floor),
            final(self).back_at(i as int).clock_of() == clock_next(
                old(self).back_at(i as int).clock_of(),
                floor,
            ),
            final(self).back_at(i as int).clock_of() >= floor,
            forall|j: int|
                0 <= j < old(self).nback() && j != i ==> #[trigger] final(self).back_at(
                    j,
                ).clock_of() == old(self).back_at(j).clock_of(),
            forall|j: int, k: Seq<char>|
                0 <= j < old(self).nback() ==> #[trigger] final(self).back_at(j).kv_of(k)
                    == old(self).back_at(j).kv_of(k),
            forall|j: int, k: Seq<char>|
                0 <= j < old(self).nback() ==> #[trigger] final(self).back_at(j).list_of(k)
                    == old(self).back_at(j).list_of(k),
    {
        let ghost pre = *self;
        let res = self.backs[i].clock(floor);
        proof {
            assert(self.backs@ =~= pre.backs@.update(i as int, self.backs@[i as int]));
            assert forall|j: int, k: Seq<char>|
                0 <= j < old(self).nback() implies #[trigger] self.back_at(j).kv_of(k) == old(
                self,
            ).back_at(j).kv_of(k) by {
                if j == i as int {
                    assert(self.back_at(j).kv_of(k) == pre.back_at(j).kv_of(k));
                } else {
                    assert(self.back_at(j) == pre.back_at(j));
                }
            }
            assert forall|j: int, k: Seq<char>|
                0 <= j < old(self).nback() implies #[trigger] self.back_at(j).list_of(k)
                == old(self).back_at(j).list_of(k) by {
                if j == i as int {
                    assert(self.back_at(j).list_of(k) == pre.back_at(j).list_of(k));
                } else {
                    assert(self.back_at(j) == pre.back_at(j));
                }
            }
            assert forall|j: int|
                0 <= j < old(self).nback() && j != i implies #[trigger] self.back_at(
                j,
            ).clock_of() == old(self).back_at(j).clock_of() by {
                assert(self.back_at(j) == pre.back_at(j));
            }
        }
        match res {
            Ok(c) => c,
            Err(_) => 0,
        }
    }

    /// Marks the back-end at `i` as down.
    pub fn kill(&mut self, i: usize)
        requires
            old(self).wf(),
            i < old(self).nback(),
        ensures
            final(self).wf(),
            final(self).nback() == old(self).nback(),
            final(self).rfactor() == old(self).rfactor(),
            forall|j: int| 0 <= j < old(self).nback() ==> final(self).back_at(j) == old(
                self,
            ).back_at(j),
            forall|j: int|
                0 <= j < old(self).nback() ==> final(self).live_at(j) == (j != i
                    && old(self).live_at(j)),
    {
        self.live.set(i, false);
    }

    /// Marks the back-end at `i` as up again.
    pub fn revive(&mut self, i: usize)
        requires
            old(self).wf(),
            i < old(self).nback(),
        ensures
            final(self).wf(),
            final(self).nback() == old(self).nback(),
            final(self).rfactor() == old(self).rfactor(),
            forall|j: int| 0 <= j < old(self).nback() ==> final(self).back_at(j) == old(
                self,
            ).back_at(j),
            forall|j: int|
                0 <= j < old(self).nback() ==> final(self).live_at(j) == (j == i
                    || old(self).live_at(j)),
    {
        self.live.set(i, true);
    }
}

} // verus!
