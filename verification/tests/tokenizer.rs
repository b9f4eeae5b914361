use sh_bot::SplitWhitespaceWithRest;
use sh_bot::str_head_tail;

#[test]
fn next_rest_one_space() {
    let mut s = SplitWhitespaceWithRest::new("asd ßDf x DfG");
    assert_eq!(Some("asd ßDf x DfG"), s.rest());
    assert_eq!(Some("asd"), s.next());
    assert_eq!(Some("ßDf x DfG"), s.rest());
    assert_eq!(Some("ßDf"), s.next());
    assert_eq!(Some("x DfG"), s.rest());
    assert_eq!(Some("x"), s.next());
    assert_eq!(Some("DfG"), s.rest());
    assert_eq!(Some("DfG"), s.next());
    assert_eq!(None, s.rest());
    assert_eq!(None, s.next());
    assert_eq!(None, s.rest());
}

#[test]
fn next_rest_multi_spaces() {
    let mut s = SplitWhitespaceWithRest::new("asd   ßDf x\t DfG");
    assert_eq!(Some("asd   ßDf x\t DfG"), s.rest());
    assert_eq!(Some("asd"), s.next());
    assert_eq!(Some("ßDf x\t DfG"), s.rest());
    assert_eq!(Some("ßDf"), s.next());
    assert_eq!(Some("x\t DfG"), s.rest());
    assert_eq!(Some("x"), s.next());
    assert_eq!(Some("DfG"), s.rest());
    assert_eq!(Some("DfG"), s.next());
    assert_eq!(None, s.rest());
    assert_eq!(None, s.next());
    assert_eq!(None, s.rest());
}

#[test]
fn next_rest_with_surrounding_space() {
    let mut s = SplitWhitespaceWithRest::new(" asd   ßDf x\t DfG\t \t");
    assert_eq!(Some("asd   ßDf x\t DfG\t \t"), s.rest());
    assert_eq!(Some("asd"), s.next());
    assert_eq!(Some("ßDf x\t DfG\t \t"), s.rest());
    assert_eq!(Some("ßDf"), s.next());
    assert_eq!(Some("x\t DfG\t \t"), s.rest());
    assert_eq!(Some("x"), s.next());
    assert_eq!(Some("DfG\t \t"), s.rest());
    assert_eq!(Some("DfG"), s.next());
    assert_eq!(None, s.rest());
    assert_eq!(None, s.next());
    assert_eq!(None, s.rest());
}

#[test]
fn rewind_one_space() {
    let mut s = SplitWhitespaceWithRest::new("asd ßDf x DfG");
    s.next();
    s.rewind();
    assert_eq!(Some("asd"), s.next());
    s.next();
    s.rewind();
    assert_eq!(Some("ßDf"), s.next());
    s.next();
    s.rewind();
    assert_eq!(Some("x"), s.next());
    s.next();
    s.rewind();
    assert_eq!(Some("DfG"), s.next());
    assert_eq!(None, s.next());
    s.rewind();
    s.rewind();
    s.rewind();
    s.rewind();
    assert_eq!(Some("asd"), s.next());
}

#[test]
fn rewind_multi_spaces() {
    let mut s = SplitWhitespaceWithRest::new("asd   ßDf x\t DfG");
    s.next();
    s.rewind();
    assert_eq!(Some("asd"), s.next());
    s.next();
    s.rewind();
    assert_eq!(Some("ßDf"), s.next());
    s.next();
    s.rewind();
    assert_eq!(Some("x"), s.next());
    s.next();
    s.rewind();
    assert_eq!(Some("DfG"), s.next());
    assert_eq!(None, s.next());
    s.rewind();
    s.rewind();
    s.rewind();
    s.rewind();
    assert_eq!(Some("asd"), s.next());
}

#[test]
fn rewind_with_surrounding_space() {
    let mut s = SplitWhitespaceWithRest::new(" asd   ßDf x\t DfG\t \t");
    s.next();
    s.rewind();
    assert_eq!(Some("asd"), s.next());
    s.next();
    s.rewind();
    assert_eq!(Some("ßDf"), s.next());
    s.next();
    s.rewind();
    assert_eq!(Some("x"), s.next());
    s.next();
    s.rewind();
    assert_eq!(Some("DfG"), s.next());
    assert_eq!(None, s.next());
    s.rewind();
    s.rewind();
    s.rewind();
    s.rewind();
    assert_eq!(Some("asd"), s.next());
}

#[test]
fn rewind_before_first_token_is_noop() {
    let mut s = SplitWhitespaceWithRest::new("one two");
    s.rewind();
    s.rewind();
    assert_eq!(Some("one"), s.next());
}

#[test]
fn empty_and_blank_inputs() {
    let mut s = SplitWhitespaceWithRest::new("");
    assert_eq!(None, s.rest());
    assert_eq!(None, s.next());
    let mut b = SplitWhitespaceWithRest::new(" \t\n ");
    assert_eq!(None, b.next());
    assert_eq!(None, b.rest());
}

#[test]
fn head_tail_splits_and_trims() {
    assert_eq!(
        ("a".to_string(), "b c".to_string()),
        str_head_tail("a b c")
    );
    assert_eq!(
        ("".to_string(), "a b".to_string()),
        str_head_tail(" a b")
    );
    assert_eq!(("solo".to_string(), "".to_string()), str_head_tail("solo"));
    assert_eq!(
        (".sh".to_string(), "want   6".to_string()),
        str_head_tail(".sh want   6  ")
    );
}
