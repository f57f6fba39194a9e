//! End-to-end scenarios against the front-end over a local bin store.
use tribbler::bins::{bin_hash, BinStore};
use tribbler::err::TribblerError;
use tribbler::front::FrontServer;
use tribbler::keeper::clock_pass;
use tribbler::storage::KeyValue;

fn front(n: usize, replicas: usize) -> FrontServer {
    FrontServer::new_front(BinStore::new(n, replicas))
}

#[test]
fn basic_post_and_fetch() {
    let mut f = front(3, 1);
    f.sign_up("alice").unwrap();
    f.post("alice", "hi", 0).unwrap();
    let tribs = f.tribs("alice").unwrap();
    assert_eq!(1, tribs.len());
    assert_eq!("hi", tribs[0].message);
    assert_eq!("alice", tribs[0].user);
    assert!(tribs[0].clock >= 1);
}

#[test]
fn follow_and_home() {
    let mut f = front(3, 1);
    f.sign_up("a").unwrap();
    f.sign_up("b").unwrap();
    f.post("b", "p1", 0).unwrap();
    f.follow("a", "b").unwrap();
    let bt = f.tribs("b").unwrap();
    let p1_clock = bt[0].clock;
    f.post("a", "p2", p1_clock).unwrap();
    let home = f.home("a").unwrap();
    assert_eq!(2, home.len());
    assert_eq!("p1", home[0].message);
    assert_eq!("p2", home[1].message);
    assert!(home[1].clock > home[0].clock);
}

#[test]
fn self_follow_rejected() {
    let mut f = front(3, 1);
    f.sign_up("a").unwrap();
    let r = f.follow("a", "a");
    assert!(matches!(r, Err(TribblerError::WhoWhom(_))));
    assert_eq!(0, f.following("a").unwrap().len());
}

#[test]
fn duplicate_user_rejected() {
    let mut f = front(3, 1);
    f.sign_up("a").unwrap();
    let r = f.sign_up("a");
    assert!(matches!(r, Err(TribblerError::UsernameTaken(_))));
    let users = f.list_users().unwrap();
    assert_eq!(vec!["a".to_string()], users);
}

#[test]
fn invalid_usernames_rejected() {
    let mut f = front(3, 1);
    assert!(matches!(f.sign_up(""), Err(TribblerError::InvalidUsername(_))));
    assert!(matches!(f.sign_up("Alice"), Err(TribblerError::InvalidUsername(_))));
    assert!(matches!(f.sign_up("0abc"), Err(TribblerError::InvalidUsername(_))));
    assert!(matches!(f.sign_up("a_b"), Err(TribblerError::InvalidUsername(_))));
    assert!(matches!(
        f.sign_up("abcdefghijklmnop"),
        Err(TribblerError::InvalidUsername(_))
    ));
    f.sign_up("a0").unwrap();
}

#[test]
fn trib_too_long_rejected() {
    let mut f = front(3, 1);
    f.sign_up("a").unwrap();
    let long: String = std::iter::repeat('x').take(141).collect();
    assert!(matches!(
        f.post("a", long.as_str(), 0),
        Err(TribblerError::TribTooLong)
    ));
    let edge: String = std::iter::repeat('x').take(140).collect();
    f.post("a", edge.as_str(), 0).unwrap();
}

#[test]
fn missing_user_rejected() {
    let mut f = front(3, 1);
    assert!(matches!(
        f.post("ghost", "hi", 0),
        Err(TribblerError::UserDoesNotExist(_))
    ));
    assert!(matches!(f.tribs("ghost"), Err(TribblerError::UserDoesNotExist(_))));
    assert!(matches!(f.home("ghost"), Err(TribblerError::UserDoesNotExist(_))));
}

#[test]
fn follow_state_errors() {
    let mut f = front(3, 1);
    f.sign_up("a").unwrap();
    f.sign_up("b").unwrap();
    assert!(matches!(
        f.unfollow("a", "b"),
        Err(TribblerError::NotFollowing(_, _))
    ));
    f.follow("a", "b").unwrap();
    assert!(matches!(
        f.follow("a", "b"),
        Err(TribblerError::AlreadyFollowing(_, _))
    ));
    assert_eq!(true, f.is_following("a", "b").unwrap());
    f.unfollow("a", "b").unwrap();
    assert_eq!(false, f.is_following("a", "b").unwrap());
}

#[test]
fn maxed_clock_surfaces() {
    let mut f = front(3, 1);
    f.sign_up("a").unwrap();
    assert!(matches!(
        f.post("a", "hi", u64::MAX),
        Err(TribblerError::MaxedSeq)
    ));
}

#[test]
fn rpc_error_when_all_backs_down() {
    let mut f = front(1, 1);
    f.sign_up("a").unwrap();
    f.kill_back(0);
    assert!(matches!(f.tribs("a"), Err(TribblerError::RpcError(_))));
}

#[test]
fn replica_failover() {
    let mut f = front(5, 3);
    f.sign_up("a").unwrap();
    f.post("a", "survives", 0).unwrap();
    let n = 5u64;
    let primary = (bin_hash("a") % n) as usize;
    f.kill_back(primary);
    let tribs = f.tribs("a").unwrap();
    assert_eq!(1, tribs.len());
    assert_eq!("survives", tribs[0].message);
}

#[test]
fn concurrent_appends_by_count() {
    // Five clients' appends, interleaved as a scheduler might order them.
    let mut store = BinStore::new(3, 1);
    for _round in 0..10 {
        for _client in 0..5 {
            store
                .bin_list_append("", &KeyValue::new("lst", "x"))
                .unwrap();
        }
    }
    let l = store.bin_list_get("", "lst").unwrap();
    assert_eq!(50, l.0.len());
}

#[test]
fn clock_floor_across_bins() {
    let mut store = BinStore::new(10, 1);
    let c = store.bin_clock("a", 1000).unwrap();
    assert!(c >= 1000);
    let m = clock_pass(&mut store);
    assert!(m >= 1000);
    let c2 = store.bin_clock("b", 0).unwrap();
    assert!(c2 >= 1000);
}

#[test]
fn gc_keeps_posts_bounded() {
    let mut f = front(2, 1);
    f.sign_up("a").unwrap();
    for i in 0..220 {
        let msg = format!("m{}", i);
        f.post("a", msg.as_str(), 0).unwrap();
    }
    let tribs = f.tribs("a").unwrap();
    assert_eq!(100, tribs.len());
    // the newest survive the trim
    assert_eq!("m219", tribs[99].message);
}

#[test]
fn list_users_sorted_capped() {
    let mut f = front(3, 1);
    for i in 0..25 {
        let name = format!("u{:02}", i);
        f.sign_up(name.as_str()).unwrap();
    }
    let users = f.list_users().unwrap();
    assert_eq!(20, users.len());
    assert_eq!("u00", users[0]);
    assert_eq!("u19", users[19]);
    // frozen cache answers later reads the same way
    let again = f.list_users().unwrap();
    assert_eq!(users, again);
}

#[test]
fn bin_isolation() {
    let mut store = BinStore::new(3, 1);
    store.bin_set("alice", &KeyValue::new("k", "va")).unwrap();
    store.bin_set("bob", &KeyValue::new("k", "vb")).unwrap();
    assert_eq!(Some("va".to_string()), store.bin_get("alice", "k").unwrap());
    assert_eq!(Some("vb".to_string()), store.bin_get("bob", "k").unwrap());
    store.bin_set("alice", &KeyValue::new("k", "")).unwrap();
    assert_eq!(None, store.bin_get("alice", "k").unwrap());
    assert_eq!(Some("vb".to_string()), store.bin_get("bob", "k").unwrap());
}

#[test]
fn tricky_bin_names_stay_disjoint() {
    let mut store = BinStore::new(1, 1);
    // these pairs compose to different physical keys even though naive
    // concatenation would collide
    store.bin_set("a:", &KeyValue::new("b::k", "one")).unwrap();
    store.bin_set("a", &KeyValue::new(":b::k", "two")).unwrap();
    assert_eq!(Some("one".to_string()), store.bin_get("a:", "b::k").unwrap());
    assert_eq!(Some("two".to_string()), store.bin_get("a", ":b::k").unwrap());
}

#[test]
fn clock_pass_idempotent_when_quiet() {
    let mut store = BinStore::new(4, 1);
    store.bin_clock("x", 500).unwrap();
    let m1 = clock_pass(&mut store);
    let m2 = clock_pass(&mut store);
    assert!(m1 >= 500);
    assert!(m2 >= m1);
    let c = store.bin_clock("y", 0).unwrap();
    assert!(c >= 500);
}

#[test]
fn dead_backs_skipped_by_pass() {
    let mut store = BinStore::new(3, 3);
    store.floor_clock(1, 900);
    store.kill(0);
    let m = clock_pass(&mut store);
    // back-end 1 is still live, so its clock reaches the maximum
    assert!(m >= 900);
    let c = store.bin_clock("a", 0).unwrap();
    assert!(c >= 900);
}

#[test]
fn bin_keys_rewrite_and_strip() {
    let mut store = BinStore::new(3, 1);
    store.bin_set("alice", &KeyValue::new("color", "red")).unwrap();
    store.bin_set("alice", &KeyValue::new("city", "sd")).unwrap();
    store.bin_set("bob", &KeyValue::new("color", "blue")).unwrap();
    store
        .bin_list_append("alice", &KeyValue::new("log", "x"))
        .unwrap();
    store
        .bin_list_append("alice", &KeyValue::new("aux", "y"))
        .unwrap();
    let p = tribbler::storage::Pattern { prefix: "c".to_string(), suffix: "".to_string() };
    let mut ks = store.bin_keys("alice", &p).unwrap().0;
    ks.sort();
    assert_eq!(vec!["city".to_string(), "color".to_string()], ks);
    let all = tribbler::storage::Pattern { prefix: "".to_string(), suffix: "".to_string() };
    let lks = store.bin_list_keys("alice", &all).unwrap().0;
    assert_eq!(vec!["aux".to_string(), "log".to_string()], lks);
    assert_eq!(1, store.bin_keys("bob", &all).unwrap().0.len());
}
