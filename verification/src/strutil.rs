//! Small executable string helpers shared by the other modules.
use vstd::prelude::*;

verus! {

/// Relies on std's `String::push`: appends one character to the string.
#[verifier::external_body]
pub(crate) fn push_char(s: &mut String, c: char)
    ensures
        final(s)@ == old(s)@.push(c),
{
    s.push(c);
}

/// Relies on std's `SystemTime::now`: seconds since the epoch, or zero
/// when the system clock reads before it.  Nothing is assumed of the
/// value.
#[verifier::external_body]
pub(crate) fn now_secs() -> u64 {
    match std::time::SystemTime::now().duration_since(std::time::UNIX_EPOCH) {
        Ok(d) => d.as_secs(),
        Err(_) => 0,
    }
}

/// Appends a string slice; a thin rename of vstd's `append`.
pub(crate) fn append_str(s: &mut String, t: &str)
    ensures
        final(s)@ == old(s)@ + t@,
{
    s.append(t);
}

/// Whether `p` is a prefix of `s`.
pub open spec fn has_prefix(s: Seq<char>, p: Seq<char>) -> bool {
    p.len() <= s.len() && s.subrange(0, p.len() as int) == p
}

/// Whether `p` is a suffix of `s`.
pub open spec fn has_suffix(s: Seq<char>, p: Seq<char>) -> bool {
    p.len() <= s.len() && s.subrange(s.len() - p.len(), s.len() as int) == p
}

/// Character-by-character prefix test.
pub fn str_starts_with(s: &str, p: &str) -> (r: bool)
    ensures
        r == has_prefix(s@, p@),
{
    let n = s.unicode_len();
    let m = p.unicode_len();
    if m > n {
        proof {
            assert(!has_prefix(s@, p@));
        }
        return false;
    }
    let mut i: usize = 0;
    while i < m
        invariant
            n == s@.len(),
            m == p@.len(),
            m <= n,
            i <= m,
            forall|j: int| 0 <= j < i ==> s@[j] == p@[j],
        decreases m - i,
    {
        if s.get_char(i) != p.get_char(i) {
            proof {
                assert(s@[i as int] != p@[i as int]);
                assert(s@.subrange(0, m as int)[i as int] == s@[i as int]);
            }
            return false;
        }
        i = i + 1;
    }
    proof {
        assert(s@.subrange(0, m as int) =~= p@);
    }
    true
}

/// Character-by-character suffix test.
pub fn str_ends_with(s: &str, p: &str) -> (r: bool)
    ensures
        r == has_suffix(s@, p@),
{
    let n = s.unicode_len();
    let m = p.unicode_len();
    if m > n {
        proof {
            assert(!has_suffix(s@, p@));
        }
        return false;
    }
    let off = n - m;
    let mut i: usize = 0;
    while i < m
        invariant
            n == s@.len(),
            m == p@.len(),
            m <= n,
            off == n - m,
            i <= m,
            forall|j: int| 0 <= j < i ==> s@[off + j] == p@[j],
        decreases m - i,
    {
        if s.get_char(off + i) != p.get_char(i) {
            proof {
                assert(s@[off + i] != p@[i as int]);
                assert(s@.subrange(n - m, n as int)[i as int] == s@[off + i]);
            }
            return false;
        }
        i = i + 1;
    }
    proof {
        assert(s@.subrange(n - m, n as int) =~= p@);
    }
    true
}

/// Equality of two string slices.
pub fn str_eq(a: &str, b: &str) -> (r: bool)
    ensures
        r == (a@ == b@),
{
    let n = a.unicode_len();
    let m = b.unicode_len();
    if n != m {
        proof {
            assert(a@ != b@);
        }
        return false;
    }
    let mut i: usize = 0;
    while i < n
        invariant
            n == a@.len(),
            n == b@.len(),
            i <= n,
            forall|j: int| 0 <= j < i ==> a@[j] == b@[j],
        decreases n - i,
    {
        if a.get_char(i) != b.get_char(i) {
            proof {
                assert(a@[i as int] != b@[i as int]);
            }
            return false;
        }
        i = i + 1;
    }
    proof {
        assert(a@ =~= b@);
    }
    true
}

/// Lexicographic order on character sequences.
pub open spec fn lex_le(a: Seq<char>, b: Seq<char>) -> bool
    decreases a.len(),
{
    if a.len() == 0 {
        true
    } else if b.len() == 0 {
        false
    } else if a[0] != b[0] {
        a[0] < b[0]
    } else {
        lex_le(a.drop_first(), b.drop_first())
    }
}

/// `lex_le` is total: one of the two directions always holds.
pub proof fn lemma_lex_le_total(a: Seq<char>, b: Seq<char>)
    ensures
        lex_le(a, b) || lex_le(b, a),
    decreases a.len(),
{
    if a.len() > 0 && b.len() > 0 && a[0] == b[0] {
        lemma_lex_le_total(a.drop_first(), b.drop_first());
    }
}

/// `lex_le` holds in both directions only for equal sequences.
pub proof fn lemma_lex_le_antisymmetric(a: Seq<char>, b: Seq<char>)
    requires
        lex_le(a, b),
        lex_le(b, a),
    ensures
        a == b,
    decreases a.len(),
{
    if a.len() > 0 && b.len() > 0 && a[0] == b[0] {
        lemma_lex_le_antisymmetric(a.drop_first(), b.drop_first());
        assert(a =~= seq![a[0]] + a.drop_first());
        assert(b =~= seq![b[0]] + b.drop_first());
    } else if a.len() == 0 {
        assert(b.len() == 0);
        assert(a =~= b);
    }
}

/// `lex_le` is transitive.
pub proof fn lemma_lex_le_transitive(a: Seq<char>, b: Seq<char>, c: Seq<char>)
    requires
        lex_le(a, b),
        lex_le(b, c),
    ensures
        lex_le(a, c),
    decreases a.len(),
{
    if a.len() > 0 && b.len() > 0 && c.len() > 0 {
        if a[0] == b[0] && b[0] == c[0] {
            lemma_lex_le_transitive(a.drop_first(), b.drop_first(), c.drop_first());
        }
    }
}

/// Two sorted sequences with the same multiset of elements are the same
/// sequence, for any total, transitive, antisymmetric order.
pub proof fn lemma_sorted_unique<A>(a: Seq<A>, b: Seq<A>, leq: spec_fn(A, A) -> bool)
    requires
        vstd::relations::sorted_by(a, leq),
        vstd::relations::sorted_by(b, leq),
        a.to_multiset() == b.to_multiset(),
        forall|x: A, y: A| #[trigger] leq(x, y) || leq(y, x),
        forall|x: A, y: A| #[trigger] leq(x, y) && leq(y, x) ==> x == y,
        forall|x: A, y: A, z: A| #[trigger] leq(x, y) && #[trigger] leq(y, z) ==> leq(x, z),
    ensures
        a == b,
    decreases a.len(),
{
    broadcast use vstd::seq_lib::group_to_multiset_ensures;

    a.to_multiset_ensures();
    b.to_multiset_ensures();
    assert(a.len() == b.len());
    if a.len() > 0 {
        assert(a.contains(a[0]));
        assert(b.to_multiset().count(a[0]) > 0);
        assert(b.contains(a[0]));
        let j = choose|j: int| 0 <= j < b.len() && b[j] == a[0];
        assert(j == 0 || leq(b[0], b[j]));
        assert(a.contains(b[0])) by {
            assert(a.to_multiset().count(b[0]) > 0);
        }
        let i = choose|i: int| 0 <= i < a.len() && a[i] == b[0];
        assert(i == 0 || leq(a[0], a[i]));
        assert(a[0] == b[0]);
        let at = a.remove(0);
        let bt = b.remove(0);
        assert(at.to_multiset() =~= a.to_multiset().remove(a[0]));
        assert(bt.to_multiset() =~= b.to_multiset().remove(b[0]));
        assert(at.to_multiset() == bt.to_multiset());
        assert(vstd::relations::sorted_by(at, leq)) by {
            assert(forall|m: int| 0 <= m < at.len() ==> at[m] == a[m + 1]);
        }
        assert(vstd::relations::sorted_by(bt, leq)) by {
            assert(forall|m: int| 0 <= m < bt.len() ==> bt[m] == b[m + 1]);
        }
        lemma_sorted_unique(at, bt, leq);
        assert(a =~= b) by {
            assert(forall|m: int| 1 <= m < a.len() ==> a[m] == at[m - 1] && b[m] == bt[m - 1]);
        }
    } else {
        assert(a =~= b);
    }
}

/// A shared prefix does not change the lexicographic order of what
/// follows it.
pub proof fn lemma_lex_le_common_prefix(p: Seq<char>, a: Seq<char>, b: Seq<char>)
    ensures
        lex_le(p + a, p + b) == lex_le(a, b),
    decreases p.len(),
{
    if p.len() == 0 {
        assert(p + a =~= a);
        assert(p + b =~= b);
    } else {
        assert((p + a)[0] == p[0]);
        assert((p + b)[0] == p[0]);
        assert((p + a).drop_first() =~= p.drop_first() + a);
        assert((p + b).drop_first() =~= p.drop_first() + b);
        lemma_lex_le_common_prefix(p.drop_first(), a, b);
    }
}

/// Sorts strings ascending by [`lex_le`] with an insertion sort.
pub fn sort_strings(v: &Vec<String>) -> (r: Vec<String>)
    ensures
        r.deep_view().to_multiset() == v.deep_view().to_multiset(),
        vstd::relations::sorted_by(r.deep_view(), |a: Seq<char>, b: Seq<char>| lex_le(a, b)),
        forall|m1: int, m2: int|
            0 <= m1 < m2 < r.deep_view().len() ==> lex_le(
                #[trigger] r.deep_view()[m1],
                #[trigger] r.deep_view()[m2],
            ),
{
    broadcast use vstd::seq_lib::group_to_multiset_ensures;

    let ghost leq = |a: Seq<char>, b: Seq<char>| lex_le(a, b);
    let ghost dv = v.deep_view();
    let mut out: Vec<String> = Vec::new();
    let mut i: usize = 0;
    proof {
        assert(dv.subrange(0, 0) =~= Seq::<Seq<char>>::empty());
        assert(out.deep_view() =~= Seq::<Seq<char>>::empty());
        assert(out.deep_view().to_multiset() =~= dv.subrange(0, 0).to_multiset());
    }
    while i < v.len()
        invariant
            i <= v@.len(),
            v.deep_view() == dv,
            v@.len() == dv.len(),
            out@.len() == i,
            out.deep_view().to_multiset() == dv.subrange(0, i as int).to_multiset(),
            vstd::relations::sorted_by(out.deep_view(), leq),
            leq == (|a: Seq<char>, b: Seq<char>| lex_le(a, b)),
        decreases dv.len() - i,
    {
        let x = v[i].clone();
        proof {
            assert(x@ == dv[i as int]);
        }
        let ghost odv = out.deep_view();
        let mut j: usize = 0;
        while j < out.len() && str_le(out[j].as_str(), x.as_str())
            invariant
                j <= out@.len(),
                out.deep_view() == odv,
                out@.len() == odv.len(),
                x@ == dv[i as int],
                forall|m: int| 0 <= m < j ==> lex_le(#[trigger] odv[m], x@),
            decreases out@.len() - j,
        {
            proof {
                assert(odv[j as int] == out@[j as int]@);
            }
            j = j + 1;
        }
        proof {
            if j < out@.len() {
                assert(odv[j as int] == out@[j as int]@);
                lemma_lex_le_total(odv[j as int], x@);
                assert(lex_le(x@, odv[j as int]));
            }
        }
        out.insert(j, x);
        proof {
            let ndv = out.deep_view();
            assert(ndv =~= odv.insert(j as int, dv[i as int]));
            let xs = dv[i as int];
            assert forall|m: int, n: int| 0 <= m < n < ndv.len() implies leq(ndv[m], ndv[n]) by {
                if n < j {
                    assert(ndv[m] == odv[m] && ndv[n] == odv[n]);
                } else if n == j {
                    assert(ndv[m] == odv[m]);
                    assert(ndv[n] == xs);
                } else {
                    assert(ndv[n] == odv[n - 1]);
                    if m < j {
                        assert(ndv[m] == odv[m]);
                        if m < n - 1 {
                            assert(leq(odv[m], odv[n - 1]));
                        }
                    } else if m == j {
                        assert(ndv[m] == xs);
                        assert(lex_le(xs, odv[j as int]));
                        if j < n - 1 {
                            assert(leq(odv[j as int], odv[n - 1]));
                            lemma_lex_le_transitive(xs, odv[j as int], odv[n - 1]);
                        }
                    } else {
                        assert(ndv[m] == odv[m - 1]);
                        assert(leq(odv[m - 1], odv[n - 1]));
                    }
                }
            }
            ndv.to_multiset_ensures();
            assert(ndv.remove(j as int) =~= odv);
            assert(ndv[j as int] == xs);
            assert(ndv.remove(j as int).to_multiset() =~= ndv.to_multiset().remove(xs));
            assert(odv.to_multiset() =~= ndv.to_multiset().remove(xs));
            assert(ndv.contains(xs)) by {
                assert((j as int) < ndv.len() && ndv[j as int] == xs);
            }
            assert(ndv.to_multiset().count(xs) > 0);
            assert(ndv.to_multiset() =~= odv.to_multiset().insert(xs));
            assert(dv.subrange(0, i + 1) =~= dv.subrange(0, i as int).push(xs));
            dv.subrange(0, i as int).to_multiset_ensures();
            assert(dv.subrange(0, i as int).push(xs).to_multiset() =~= dv.subrange(
                0,
                i as int,
            ).to_multiset().insert(xs));
            assert(dv.subrange(0, i + 1).to_multiset() =~= dv.subrange(
                0,
                i as int,
            ).to_multiset().insert(xs));
        }
        i = i + 1;
    }
    proof {
        assert(dv.subrange(0, dv.len() as int) =~= dv);
        assert forall|m1: int, m2: int|
            0 <= m1 < m2 < out.deep_view().len() implies lex_le(
            #[trigger] out.deep_view()[m1],
            #[trigger] out.deep_view()[m2],
        ) by {
            assert(leq(out.deep_view()[m1], out.deep_view()[m2]));
        }
    }
    out
}

/// Executable lexicographic comparison.
pub fn str_le(a: &str, b: &str) -> (r: bool)
    ensures
        r == lex_le(a@, b@),
{
    let n = a.unicode_len();
    let m = b.unicode_len();
    let mut i: usize = 0;
    proof {
        assert(a@.skip(0) =~= a@);
        assert(b@.skip(0) =~= b@);
    }
    while i < n && i < m
        invariant
            n == a@.len(),
            m == b@.len(),
            i <= n,
            i <= m,
            lex_le(a@, b@) == lex_le(a@.skip(i as int), b@.skip(i as int)),
        decreases n - i,
    {
        let ca = a.get_char(i);
        let cb = b.get_char(i);
        proof {
            let ta = a@.skip(i as int);
            let tb = b@.skip(i as int);
            assert(ta.len() > 0 && tb.len() > 0);
            assert(ta[0] == ca && tb[0] == cb);
            assert(ta.drop_first() =~= a@.skip(i + 1));
            assert(tb.drop_first() =~= b@.skip(i + 1));
        }
        if ca != cb {
            return ca < cb;
        }
        i = i + 1;
    }
    proof {
        let ta = a@.skip(i as int);
        let tb = b@.skip(i as int);
        assert(ta.len() == 0 || tb.len() == 0);
    }
    i >= n
}

} // verus!
