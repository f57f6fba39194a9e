//! Escape round trips.
use tribbler::colon::{escape, unescape};

fn check(s: &str) {
    assert_eq!(unescape(escape(s).as_str()), s);
}

#[test]
fn t1() {
    check("|");
}

#[test]
fn t2() {
    check("||");
}

#[test]
fn t3() {
    check("|||");
}

#[test]
fn t4() {
    check("a|:a");
}

#[test]
fn t5() {
    check("a::a");
}

#[test]
fn t6() {
    check("a:|a");
}

#[test]
fn t7() {
    check("    ");
}

#[test]
fn t8() {
    check("::||::||;;||;;||;:");
}

#[test]
fn escape_example() {
    assert_eq!(escape("Testing|Escape:Sequences"), "Testing||Escape|;Sequences");
    assert_eq!(
        unescape(escape("Testing|Escape:Sequences").as_str()),
        "Testing|Escape:Sequences"
    );
}
