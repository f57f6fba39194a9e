//! Unit-level checks: codecs, hashing, the keeper's decisions, address
//! helpers, and the configuration generator.
use tribbler::addr::{check, local, rand_port, resolve, PORT_END, PORT_START};
use tribbler::bins::{bin_hash, compose_key};
use tribbler::colon::escape;
use tribbler::config::{make_config, Config, KeeperConfig, ProcessType};
use tribbler::err::TribblerError;
use tribbler::front::{encode_follow, encode_trib, fold_following, parse_follow, parse_trib,
    FollowEvent};
use tribbler::keeper::{liveness_step, lock_winner, max_clock, may_claim_lock, KeeperLock,
    FAULT_THRESHOLD};
use tribbler::num::{parse_u64, u64_to_dec};
use tribbler::trib::{is_valid_username, Trib};

#[test]
fn decimal_round_trip() {
    for n in [0u64, 1, 9, 10, 35000, u64::MAX] {
        let s = u64_to_dec(n);
        assert_eq!(Some(n), parse_u64(s.as_str()));
    }
    assert_eq!("0", u64_to_dec(0));
    assert_eq!("18446744073709551615", u64_to_dec(u64::MAX));
}

#[test]
fn decimal_parse_rejects() {
    assert_eq!(None, parse_u64(""));
    assert_eq!(None, parse_u64("12a"));
    assert_eq!(None, parse_u64("-1"));
    assert_eq!(None, parse_u64("18446744073709551616"));
    assert_eq!(Some(7), parse_u64("007"));
}

#[test]
fn trib_record_round_trip() {
    let t = Trib {
        user: "alice".to_string(),
        message: "hello: world | pipes".to_string(),
        time: 123,
        clock: 45,
    };
    let enc = encode_trib(&t);
    let back = parse_trib(enc.as_str()).unwrap();
    assert_eq!(back.user, t.user);
    assert_eq!(back.message, t.message);
    assert_eq!(back.time, t.time);
    assert_eq!(back.clock, t.clock);
}

#[test]
fn trib_record_rejects_garbage() {
    assert!(parse_trib("no colons here").is_none());
    assert!(parse_trib("a:b:c:d").is_none());
}

#[test]
fn follow_record_round_trip() {
    let e = FollowEvent { follow: true, clock: 9, whom: "bo:b".to_string() };
    let back = parse_follow(encode_follow(&e).as_str()).unwrap();
    assert_eq!(back.follow, true);
    assert_eq!(back.clock, 9);
    assert_eq!(back.whom, "bo:b");
    let u = FollowEvent { follow: false, clock: 10, whom: "carol".to_string() };
    let back2 = parse_follow(encode_follow(&u).as_str()).unwrap();
    assert_eq!(back2.follow, false);
}

#[test]
fn compose_key_separates_bins() {
    assert_eq!("alice::posts", compose_key("alice", "posts"));
    assert_eq!("a|;b::k", compose_key("a:b", "k"));
    assert_ne!(compose_key("a:", "b::k"), compose_key("a", ":b::k"));
    assert_eq!(escape("a:b"), "a|;b");
}

#[test]
fn hash_is_stable() {
    assert_eq!(bin_hash("alice"), bin_hash("alice"));
    assert_ne!(bin_hash("alice"), bin_hash("bob"));
}

#[test]
fn username_rules() {
    assert!(is_valid_username("a"));
    assert!(is_valid_username("abc123"));
    assert!(!is_valid_username(""));
    assert!(!is_valid_username("1abc"));
    assert!(!is_valid_username("aBc"));
    assert!(!is_valid_username("abcdefghijklmnop"));
}

#[test]
fn keeper_lock_rules() {
    assert!(may_claim_lock(None, 5, 1));
    let held = KeeperLock { id: 7, lease_deadline: 10 };
    assert!(!may_claim_lock(Some(&held), 5, 1));
    assert!(may_claim_lock(Some(&held), 11, 1));
    assert!(may_claim_lock(Some(&held), 5, 7));
    assert_eq!(9, lock_winner(9, 7));
    assert_eq!(9, lock_winner(7, 9));
}

#[test]
fn keeper_liveness_rules() {
    assert_eq!((false, 0), liveness_step(true, 2, true));
    assert_eq!((false, 1), liveness_step(false, 0, false));
    assert_eq!((false, 2), liveness_step(false, 1, false));
    assert_eq!((true, FAULT_THRESHOLD), liveness_step(false, 2, false));
    assert_eq!((true, FAULT_THRESHOLD), liveness_step(true, FAULT_THRESHOLD, false));
}

#[test]
fn keeper_max_clock() {
    assert_eq!(0, max_clock(&vec![]));
    assert_eq!(17, max_clock(&vec![3, 17, 5]));
}

#[test]
fn address_helpers() {
    let p = rand_port();
    assert!(PORT_START <= p && p < PORT_END);
    assert_eq!("host:80", resolve("host:80"));
    let resolved = resolve("localhost:rand");
    assert!(resolved.starts_with("localhost:"));
    assert!(!resolved.ends_with(":rand"));
    let l = local();
    assert!(l.starts_with("localhost:"));
    let addrs = vec!["127.0.0.1:8000".to_string()];
    let locals = vec!["10.0.0.9".to_string(), "127.0.0.1".to_string()];
    assert!(check(&addrs, &locals));
    assert!(!check(&addrs, &vec!["192.168.0.1".to_string()]));
}

#[test]
fn config_generation() {
    let ips = vec!["h1".to_string(), "h2".to_string()];
    let cfg = make_config(&ips, 3, 1, 3000);
    assert_eq!(3, cfg.back_count());
    assert_eq!(1, cfg.keeper_count());
    assert_eq!(vec!["h1:3000", "h2:3001", "h1:3002"], cfg.backs);
    assert_eq!(vec!["h2:3003"], cfg.keepers);
    let kc = cfg.keeper_config(0, 42).unwrap();
    assert_eq!(0, kc.this);
    assert_eq!(42, kc.id);
    assert_eq!("h2:3003", kc.addr());
}

#[test]
fn config_location_default() {
    assert_eq!("bins.json", Config::location(None));
    assert_eq!("other.json", Config::location(Some("other.json")));
}

#[test]
fn process_type_names() {
    assert_eq!("backend", ProcessType::Back.name());
    assert_eq!("keeper", ProcessType::Keep.name());
    let kc = KeeperConfig {
        backs: vec![],
        addrs: vec!["k1".to_string()],
        this: 0,
        id: 1,
    };
    assert_eq!("k1", kc.addr());
}

#[test]
fn error_messages() {
    let e = TribblerError::UserDoesNotExist("x".to_string());
    assert_eq!("user \"x\" does not exist", e.message());
    assert_eq!(
        "tribbler post exceed character limit",
        TribblerError::TribTooLong.message()
    );
}

#[test]
fn escape_empty_and_plain() {
    assert_eq!("", escape(""));
    assert_eq!("plain", escape("plain"));
}

#[test]
fn follow_fold_is_order_independent() {
    let one = fold_following(&vec![
        FollowEvent { follow: true, clock: 1, whom: "x".to_string() },
        FollowEvent { follow: false, clock: 2, whom: "x".to_string() },
        FollowEvent { follow: true, clock: 3, whom: "y".to_string() },
    ]);
    let two = fold_following(&vec![
        FollowEvent { follow: true, clock: 3, whom: "y".to_string() },
        FollowEvent { follow: false, clock: 2, whom: "x".to_string() },
        FollowEvent { follow: true, clock: 1, whom: "x".to_string() },
    ]);
    assert_eq!(one, vec!["y".to_string()]);
    assert_eq!(two, vec!["y".to_string()]);
}
