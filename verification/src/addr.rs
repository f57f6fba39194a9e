//! Address helpers: deciding whether an address belongs to this host,
//! and random ports for local test rings.
use crate::num::dec_seq;
use crate::strutil::{append_str, has_prefix, has_suffix, push_char, str_ends_with,
    str_starts_with};
use vstd::prelude::*;

verus! {

/// The lowest port [`rand_port`] may answer.
pub const PORT_START: u16 = 30001;

/// The port just above the highest [`rand_port`] may answer.
pub const PORT_END: u16 = 35000;

/// Every address of `addrs` starts with `la`.
pub open spec fn all_prefixed(addrs: Seq<Seq<char>>, la: Seq<char>) -> bool {
    forall|j: int| 0 <= j < addrs.len() ==> has_prefix(#[trigger] addrs[j], la)
}

/// Whether an address resolving to `addrs` is served locally: some local
/// interface address is a prefix of every resolved address.
pub open spec fn is_local(addrs: Seq<Seq<char>>, local_addrs: Seq<Seq<char>>) -> bool {
    exists|i: int|
        0 <= i < local_addrs.len() && all_prefixed(addrs, #[trigger] local_addrs[i])
}

/// Decides [`is_local`] for resolved addresses and the host's interface
/// addresses, both already written as strings.
pub fn check(addrs: &Vec<String>, local_addrs: &Vec<String>) -> (r: bool)
    ensures
        r == is_local(addrs.deep_view(), local_addrs.deep_view()),
{
    let ghost adv = addrs.deep_view();
    let ghost ldv = local_addrs.deep_view();
    let mut i: usize = 0;
    while i < local_addrs.len()
        invariant
            addrs.deep_view() == adv,
            local_addrs.deep_view() == ldv,
            local_addrs@.len() == ldv.len(),
            addrs@.len() == adv.len(),
            i <= ldv.len(),
            forall|i2: int| 0 <= i2 < i ==> !all_prefixed(adv, #[trigger] ldv[i2]),
        decreases ldv.len() - i,
    {
        let mut all = true;
        let mut j: usize = 0;
        while j < addrs.len()
            invariant
                addrs.deep_view() == adv,
                local_addrs.deep_view() == ldv,
                addrs@.len() == adv.len(),
                i < ldv.len(),
                j <= adv.len(),
                all == forall|j2: int|
                    0 <= j2 < j ==> has_prefix(#[trigger] adv[j2], ldv[i as int]),
            decreases adv.len() - j,
        {
            proof {
                assert(adv[j as int] == addrs@[j as int]@);
                assert(ldv[i as int] == local_addrs@[i as int]@);
            }
            let p = str_starts_with(addrs[j].as_str(), local_addrs[i].as_str());
            proof {
                if all && p {
                    assert(forall|j2: int|
                        0 <= j2 < j + 1 ==> has_prefix(#[trigger] adv[j2], ldv[i as int]));
                }
            }
            all = all && p;
            j = j + 1;
        }
        if all {
            proof {
                assert(all_prefixed(adv, ldv[i as int]));
                assert(is_local(adv, ldv));
            }
            return true;
        }
        proof {
            assert(!all_prefixed(adv, ldv[i as int])) by {
                if all_prefixed(adv, ldv[i as int]) {
                    assert(forall|j2: int|
                        0 <= j2 < adv.len() ==> has_prefix(#[trigger] adv[j2], ldv[i as int]));
                }
            }
        }
        i = i + 1;
    }
    proof {
        if is_local(adv, ldv) {
            let w = choose|w: int|
                0 <= w < ldv.len() && all_prefixed(adv, #[trigger] ldv[w]);
        }
    }
    false
}

/// Relies on `rand::Rng::gen_range`: a port in
/// [[`PORT_START`], [`PORT_END`]).
#[verifier::external_body]
pub fn rand_port() -> (p: u16)
    ensures
        PORT_START <= p < PORT_END,
{
    rand::Rng::gen_range(&mut rand::thread_rng(), PORT_START..PORT_END)
}

/// Resolves an address ending with `:rand` to one with a fresh port;
/// any other address passes through unchanged.
pub fn resolve(s: &str) -> (r: String)
    ensures
        !has_suffix(s@, ":rand"@) ==> r@ == s@,
        has_suffix(s@, ":rand"@) ==> exists|p: u16|
            PORT_START <= p < PORT_END && r@ == s@.subrange(0, s@.len() - 5) + seq![':']
                + dec_seq(p as nat),
{
    proof {
        reveal_strlit(":rand");
    }
    if str_ends_with(s, ":rand") {
        let n = s.unicode_len();
        proof {
            assert(":rand"@.len() == 5);
        }
        let head = s.substring_char(0, n - 5);
        let mut out = head.to_owned();
        push_char(&mut out, ':');
        let p = rand_port();
        let digits = crate::num::u64_to_dec(p as u64);
        append_str(&mut out, digits.as_str());
        proof {
            assert(out@ =~= s@.subrange(0, s@.len() - 5) + seq![':'] + dec_seq(p as nat));
        }
        out
    } else {
        s.to_owned()
    }
}

/// A fresh local address: `localhost` with a random port.
pub fn local() -> (r: String)
    ensures
        exists|p: u16|
            PORT_START <= p < PORT_END && r@ == "localhost:rand"@.subrange(0, 9) + seq![':']
                + dec_seq(p as nat),
{
    proof {
        reveal_strlit("localhost:rand");
        reveal_strlit(":rand");
        assert(has_suffix("localhost:rand"@, ":rand"@)) by {
            assert("localhost:rand"@.subrange(9, 14) =~= ":rand"@);
        }
    }
    resolve("localhost:rand")
}

} // verus!
