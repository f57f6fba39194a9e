//! Configuration of the storage ring: back-end and keeper addresses.
use crate::err::TribblerError;
use crate::num::dec_seq;
use crate::strutil::{append_str, push_char};
use vstd::prelude::*;

verus! {

/// Where the configuration file lives unless told otherwise.
pub const DEFAULT_CONFIG_LOCATION: &'static str = "bins.json";

/// Which kind of storage process a launcher runs.
#[derive(Debug, Clone)]
pub enum ProcessType {
    /// a key-value back-end
    Back,
    /// a keeper
    Keep,
}

impl ProcessType {
    /// The process kind's name, for messages.
    pub fn name(&self) -> (r: &'static str)
        ensures
            r@ == match self {
                ProcessType::Back => "backend"@,
                ProcessType::Keep => "keeper"@,
            },
    {
        match self {
            ProcessType::Back => "backend",
            ProcessType::Keep => "keeper",
        }
    }
}

/// The ring configuration: back-end addresses in ring order and keeper
/// addresses in index order.
pub struct Config {
    /// back-end addresses
    pub backs: Vec<String>,
    /// keeper addresses
    pub keepers: Vec<String>,
}

/// Configuration of a single keeper.
pub struct KeeperConfig {
    /// the addresses of back-ends
    pub backs: Vec<String>,
    /// the addresses of keepers
    pub addrs: Vec<String>,
    /// the index of this keeper
    pub this: usize,
    /// non-zero incarnation identifier
    pub id: u128,
}

impl KeeperConfig {
    /// This keeper's own address.
    pub fn addr(&self) -> (r: &str)
        requires
            self.this < self.addrs@.len(),
        ensures
            r@ == self.addrs@[self.this as int]@,
    {
        self.addrs[self.this].as_str()
    }
}

impl Config {
    /// The configuration file to use: the given path, or the default.
    pub fn location<'a>(l: Option<&'a str>) -> (r: &'a str)
        ensures
            r@ == match l {
                Some(s) => s@,
                None => DEFAULT_CONFIG_LOCATION@,
            },
    {
        match l {
            Some(s) => s,
            None => DEFAULT_CONFIG_LOCATION,
        }
    }

    /// The number of back-ends.
    pub fn back_count(&self) -> (n: usize)
        ensures
            n == self.backs@.len(),
    {
        self.backs.len()
    }

    /// The number of keepers.
    pub fn keeper_count(&self) -> (n: usize)
        ensures
            n == self.keepers@.len(),
    {
        self.keepers.len()
    }

    /// Builds the configuration of keeper `i` with the given incarnation
    /// id; `i` must be a valid keeper index and the id non-zero.
    pub fn keeper_config(&self, i: usize, id: u128) -> (r: Result<KeeperConfig, TribblerError>)
        requires
            i < self.keepers@.len(),
            id != 0,
        ensures
            r matches Ok(kc) && kc.this == i && kc.id == id && kc.backs.deep_view()
                == self.backs.deep_view() && kc.addrs.deep_view() == self.keepers.deep_view(),
    {
        Ok(
            KeeperConfig {
                backs: clone_addrs(&self.backs),
                addrs: clone_addrs(&self.keepers),
                this: i,
                id,
            },
        )
    }
}

/// Clones a list of addresses.
fn clone_addrs(v: &Vec<String>) -> (r: Vec<String>)
    ensures
        r.deep_view() == v.deep_view(),
{
    let mut out: Vec<String> = Vec::new();
    let mut i: usize = 0;
    while i < v.len()
        invariant
            i <= v@.len(),
            out@.len() == i,
            forall|j: int| 0 <= j < i ==> out@[j]@ == v@[j]@,
        decreases v@.len() - i,
    {
        out.push(v[i].clone());
        i = i + 1;
    }
    proof {
        assert(out.deep_view() =~= v.deep_view());
    }
    out
}

/// One generated `host:port` address.
pub open spec fn gen_addr(ip: Seq<char>, port: int) -> Seq<char> {
    ip + seq![':'] + dec_seq(port as nat)
}

/// Generates a ring configuration: `backs` back-end addresses followed
/// by `keeps` keeper addresses, ports counting up from `start_port`,
/// cycling through the given hosts.
pub fn make_config(ips: &Vec<String>, backs: usize, keeps: usize, start_port: u16) -> (r: Config)
    requires
        ips@.len() >= 1,
        backs <= 300,
        keeps <= 10,
    ensures
        r.backs@.len() == backs,
        r.keepers@.len() == keeps,
        forall|i: int|
            0 <= i < backs ==> (#[trigger] r.backs@[i])@ == gen_addr(
                ips.deep_view()[i % (ips@.len() as int)],
                start_port + i,
            ),
        forall|i: int|
            0 <= i < keeps ==> (#[trigger] r.keepers@[i])@ == gen_addr(
                ips.deep_view()[(backs + i) % (ips@.len() as int)],
                start_port + backs + i,
            ),
{
    let mut back_addrs: Vec<String> = Vec::new();
    let mut i: usize = 0;
    while i < backs
        invariant
            ips@.len() >= 1,
            backs <= 300,
            i <= backs,
            back_addrs@.len() == i,
            forall|j: int|
                0 <= j < i ==> (#[trigger] back_addrs@[j])@ == gen_addr(
                    ips.deep_view()[j % (ips@.len() as int)],
                    start_port + j,
                ),
        decreases backs - i,
    {
        let ip = &ips[i % ips.len()];
        let mut a = ip.clone();
        push_char(&mut a, ':');
        let digits = crate::num::u64_to_dec(start_port as u64 + i as u64);
        append_str(&mut a, digits.as_str());
        proof {
            assert(ips.deep_view()[(i as int) % (ips@.len() as int)] == ips@[(i as int) % (
            ips@.len() as int)]@);
            assert(a@ =~= gen_addr(
                ips.deep_view()[(i as int) % (ips@.len() as int)],
                start_port + i,
            ));
        }
        back_addrs.push(a);
        i = i + 1;
    }
    let mut keeper_addrs: Vec<String> = Vec::new();
    let mut j: usize = 0;
    while j < keeps
        invariant
            ips@.len() >= 1,
            backs <= 300,
            keeps <= 10,
            j <= keeps,
            keeper_addrs@.len() == j,
            forall|m: int|
                0 <= m < j ==> (#[trigger] keeper_addrs@[m])@ == gen_addr(
                    ips.deep_view()[(backs + m) % (ips@.len() as int)],
                    start_port + backs + m,
                ),
        decreases keeps - j,
    {
        let ip = &ips[(backs + j) % ips.len()];
        let mut a = ip.clone();
        push_char(&mut a, ':');
        let digits = crate::num::u64_to_dec(start_port as u64 + backs as u64 + j as u64);
        append_str(&mut a, digits.as_str());
        proof {
            assert(ips.deep_view()[((backs + j) as int) % (ips@.len() as int)] == ips@[((backs
                + j) as int) % (ips@.len() as int)]@);
            assert(a@ =~= gen_addr(
                ips.deep_view()[((backs + j) as int) % (ips@.len() as int)],
                start_port + backs + j,
            ));
        }
        keeper_addrs.push(a);
        j = j + 1;
    }
    Config { backs: back_addrs, keepers: keeper_addrs }
}

} // verus!
