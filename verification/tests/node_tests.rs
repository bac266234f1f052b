use board_placement::node;
use board_placement::node::{MulErr, Node};

#[test]
fn builder_chain_sets_fields() {
    let n = Node::new("brendo".to_string()).size(1).count(2);
    assert_eq!(n.to_string(), "name:brendo, size:1, count:2");
}

#[test]
fn grow_and_inc_bump_counters() {
    let mut n = Node::new("brendo".to_string()).size(1).count(2);
    n.grow();
    n.inc();
    assert_eq!(n.to_string(), "name:brendo, size:2, count:3");
}

#[test]
fn change_name_appends() {
    let n = Node::new("bren".to_string()).change_name("do".to_string());
    assert_eq!(n.to_string(), "name:brendo, size:0, count:0");
}

#[test]
fn to_string_renders_multi_digit_numbers() {
    let n = Node::new("n".to_string()).size(1024).count(305);
    assert_eq!(n.to_string(), "name:n, size:1024, count:305");
}

#[test]
fn mul_of_non_negatives_multiplies() {
    assert_eq!(node::mul(3, 4), Ok(12));
    assert_eq!(node::mul(0, 7), Ok(0));
    assert_eq!(node::mul(65536, 32767), Ok(2147418112));
}

#[test]
fn mul_rejects_negative_factors() {
    assert_eq!(node::mul(-1, 5), Err(MulErr::NegativeNumber));
    assert_eq!(node::mul(5, -1), Err(MulErr::NegativeNumber));
}

#[test]
fn mul_rejects_overflowing_products() {
    assert_eq!(node::mul(65536, 65536), Err(MulErr::Overflow));
    assert_eq!(node::mul(2147483647, 2147483647), Err(MulErr::Overflow));
}

#[test]
fn repeat_concatenates_copies() {
    assert_eq!(node::repeat("ab", 3), "ababab");
    assert_eq!(node::repeat("x", 0), "");
    assert_eq!(node::repeat("", 10), "");
}
