//! The single-node reference server.
use tribbler::err::TribblerError;
use tribbler::ref_impl::RefServer;

#[test]
fn two_sign_ups_listed() {
    let mut server = RefServer::new();
    server.sign_up("user1").unwrap();
    server.sign_up("user2").unwrap();
    assert_eq!(server.list_users().unwrap().len(), 2);
}

#[test]
fn ref_duplicate_rejected() {
    let mut s = RefServer::new();
    s.sign_up("a").unwrap();
    assert!(matches!(s.sign_up("a"), Err(TribblerError::UsernameTaken(_))));
    assert_eq!(vec!["a".to_string()], s.list_users().unwrap());
}

#[test]
fn ref_post_and_tribs() {
    let mut s = RefServer::new();
    s.sign_up("alice").unwrap();
    s.post("alice", "hello", 0).unwrap();
    s.post("alice", "again", 0).unwrap();
    let tribs = s.tribs("alice").unwrap();
    assert_eq!(2, tribs.len());
    assert_eq!("hello", tribs[0].message);
    assert_eq!("again", tribs[1].message);
    // the clock is bumped past the seen clock, so the first post gets 1
    assert_eq!(1, tribs[0].clock);
    assert!(tribs[0].clock < tribs[1].clock);
}

#[test]
fn ref_gc_keeps_posts_bounded() {
    let mut s = RefServer::new();
    s.sign_up("a").unwrap();
    for i in 0..220 {
        let msg = format!("m{}", i);
        s.post("a", msg.as_str(), 0).unwrap();
    }
    let tribs = s.tribs("a").unwrap();
    assert_eq!(100, tribs.len());
    assert_eq!("m219", tribs[99].message);
}

#[test]
fn ref_follow_and_home() {
    let mut s = RefServer::new();
    s.sign_up("a").unwrap();
    s.sign_up("b").unwrap();
    s.post("b", "from b", 0).unwrap();
    s.follow("a", "b").unwrap();
    s.post("a", "from a", 0).unwrap();
    let home = s.home("a").unwrap();
    assert_eq!(2, home.len());
    assert_eq!("from b", home[0].message);
    assert_eq!("from a", home[1].message);
}

#[test]
fn ref_self_follow_rejected() {
    let mut s = RefServer::new();
    s.sign_up("a").unwrap();
    assert!(matches!(s.follow("a", "a"), Err(TribblerError::WhoWhom(_))));
}

#[test]
fn ref_follow_errors() {
    let mut s = RefServer::new();
    s.sign_up("a").unwrap();
    s.sign_up("b").unwrap();
    assert!(matches!(
        s.unfollow("a", "b"),
        Err(TribblerError::NotFollowing(_, _))
    ));
    s.follow("a", "b").unwrap();
    assert!(matches!(
        s.follow("a", "b"),
        Err(TribblerError::AlreadyFollowing(_, _))
    ));
    assert_eq!(true, s.is_following("a", "b").unwrap());
    assert_eq!(vec!["b".to_string()], s.following("a").unwrap());
    s.unfollow("a", "b").unwrap();
    assert_eq!(false, s.is_following("a", "b").unwrap());
}

#[test]
fn ref_unfollow_updates_home() {
    let mut s = RefServer::new();
    s.sign_up("a").unwrap();
    s.sign_up("b").unwrap();
    s.post("b", "b post", 0).unwrap();
    s.follow("a", "b").unwrap();
    assert_eq!(1, s.home("a").unwrap().len());
    s.unfollow("a", "b").unwrap();
    assert_eq!(0, s.home("a").unwrap().len());
}

#[test]
fn ref_invalid_name_rejected() {
    let mut s = RefServer::new();
    assert!(matches!(
        s.sign_up("Not-Valid"),
        Err(TribblerError::InvalidUsername(_))
    ));
    assert!(matches!(s.tribs("ghost"), Err(TribblerError::UserDoesNotExist(_))));
}

#[test]
fn ref_list_users_sorted() {
    let mut s = RefServer::new();
    s.sign_up("zed").unwrap();
    s.sign_up("amy").unwrap();
    s.sign_up("moe").unwrap();
    assert_eq!(
        vec!["amy".to_string(), "moe".to_string(), "zed".to_string()],
        s.list_users().unwrap()
    );
}
