use emlop::parser::split_atom;

#[test]
fn split_atom_() {
    assert_eq!(None, split_atom(""));
    assert_eq!(None, split_atom("a"));
    assert_eq!(None, split_atom("-"));
    assert_eq!(None, split_atom("42"));
    assert_eq!(None, split_atom("-42"));
    assert_eq!(None, split_atom("42-"));
    assert_eq!(None, split_atom("a-/"));
    assert_eq!(Some(("a", "0")), split_atom("a-0"));
    assert_eq!(Some(("a", "1")), split_atom("a-1"));
    assert_eq!(Some(("a", "2")), split_atom("a-2"));
    assert_eq!(Some(("a", "3")), split_atom("a-3"));
    assert_eq!(Some(("a", "4")), split_atom("a-4"));
    assert_eq!(Some(("a", "5")), split_atom("a-5"));
    assert_eq!(Some(("a", "6")), split_atom("a-6"));
    assert_eq!(Some(("a", "7")), split_atom("a-7"));
    assert_eq!(Some(("a", "8")), split_atom("a-8"));
    assert_eq!(Some(("a", "9")), split_atom("a-9"));
    assert_eq!(None, split_atom("a-:"));
    assert_eq!(Some(("a-b", "2")), split_atom("a-b-2"));
    assert_eq!(Some(("a-b", "2-3")), split_atom("a-b-2-3"));
    assert_eq!(Some(("a-b", "2-3_r1")), split_atom("a-b-2-3_r1"));
    assert_eq!(Some(("a-b", "2foo-4")), split_atom("a-b-2foo-4"));
    assert_eq!(Some(("a-b", "2foo-4-")), split_atom("a-b-2foo-4-"));
    assert_eq!(Some(("Noël", "2-bêta")), split_atom("Noël-2-bêta"));
}

#[test]
fn split_atom_round_trip() {
    for (pkg, ver) in [("dev-libs/foo-bar", "1.2.3_p4"), ("a", "0"), ("x/y-z", "9-r1")] {
        let atom = format!("{}-{}", pkg, ver);
        assert_eq!(Some((pkg, ver)), split_atom(&atom));
    }
}
