use harmony::intern::StrIntern;
use std::rc::Rc;

#[test]
fn equal_strings_share_one_copy() {
    let mut interner = StrIntern::new();
    let a = interner.get("db");
    let b = interner.get("other");
    let c = interner.get(&String::from("db"));
    assert_eq!(a.as_str(), "db");
    assert_eq!(b.as_str(), "other");
    assert_eq!(c.as_str(), "db");
    assert!(Rc::ptr_eq(&a, &c));
    assert!(!Rc::ptr_eq(&a, &b));
}

#[test]
fn handles_stay_valid_while_the_table_grows() {
    let mut interner = StrIntern::new();
    let first = interner.get("");
    let mut handles = Vec::new();
    for n in 0..300 {
        handles.push(interner.get(&format!("name{}", n)));
    }
    assert!(Rc::ptr_eq(&first, &interner.get("")));
    for n in 0..300 {
        let again = interner.get(&format!("name{}", n));
        assert!(Rc::ptr_eq(&handles[n], &again));
        assert_eq!(again.as_str(), format!("name{}", n));
    }
}

#[test]
fn interners_do_not_share_with_each_other() {
    let mut one = StrIntern::new();
    let mut two = StrIntern::new();
    let a = one.get("x");
    let b = two.get("x");
    assert_eq!(a, b);
    assert!(!Rc::ptr_eq(&a, &b));
}
