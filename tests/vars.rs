use jetporch::vars::Variables;

fn s(x: &str) -> String {
    x.to_string()
}

#[test]
fn set_replaces_and_keeps_order() {
    let mut v = Variables::new();
    v.set(s("a"), s("1"));
    v.set(s("b"), s("2"));
    v.set(s("a"), s("3"));
    assert_eq!(v.len(), 2);
    assert_eq!(v.get(&s("a")), Some(s("3")));
    assert_eq!(v.get(&s("c")), None);
    assert_eq!(v.entries(), vec![(s("a"), s("3")), (s("b"), s("2"))]);
}

#[test]
fn merge_prefers_the_other_document() {
    let mut base = Variables::new();
    base.set(s("a"), s("1"));
    base.set(s("b"), s("2"));
    let mut over = Variables::new();
    over.set(s("b"), s("20"));
    over.set(s("c"), s("30"));
    base.merge_from(&over);
    assert_eq!(base.entries(), vec![(s("a"), s("1")), (s("b"), s("20")), (s("c"), s("30"))]);
}

#[test]
fn empty_document() {
    let v = Variables::new();
    assert_eq!(v.len(), 0);
    assert_eq!(v.entries(), vec![]);
}
