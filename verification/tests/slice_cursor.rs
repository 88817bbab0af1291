use yap_tokens::slice_tokens::into_tokens;

#[test]
fn produces_items_in_order_then_exhausts() {
    let arr = [10, 20, 30];
    let mut t = into_tokens(&arr);
    assert_eq!(t.next(), Some(&10));
    assert_eq!(t.next(), Some(&20));
    assert_eq!(t.next(), Some(&30));
    assert_eq!(t.next(), None);
}

#[test]
fn consumed_and_remaining_after_two_productions() {
    let arr = [10, 20, 30];
    let mut t = into_tokens(&arr);
    t.next();
    t.next();
    assert_eq!(t.consumed(), &[10, 20]);
    assert_eq!(t.remaining(), &[30]);
}

#[test]
fn consumed_concat_remaining_reconstructs_source_at_every_position() {
    let arr = [1, 2, 3, 4];
    let mut t = into_tokens(&arr);
    for _ in 0..=arr.len() {
        let mut joined = t.consumed().to_vec();
        joined.extend_from_slice(t.remaining());
        assert_eq!(joined, arr.to_vec());
        t.next();
    }
}

#[test]
fn into_source_recovers_full_slice_after_consumption() {
    let arr = ["alpha", "beta", "gamma"];
    let mut t = into_tokens(&arr);
    t.next();
    t.next();
    let source = t.into_source();
    assert_eq!(source, &["alpha", "beta", "gamma"]);
}

#[test]
fn cursor_converts_to_itself() {
    let arr = [7, 8];
    let mut t = into_tokens(&arr).into_tokens();
    assert_eq!(t.next(), Some(&7));
}

#[test]
fn rewind_restores_remaining_to_what_it_was_at_save() {
    let arr = [5, 6, 7, 8];
    let mut t = into_tokens(&arr);
    t.next();
    let before = t.remaining().to_vec();
    let cp = t.save_checkpoint();
    t.next();
    t.next();
    assert_eq!(t.remaining(), &[8]);
    t.rewind_to_checkpoint(cp);
    assert_eq!(t.remaining().to_vec(), before);
    assert_eq!(t.consumed(), &[5]);
}

#[test]
fn exhaustion_repeats_without_advancing() {
    let arr = [1];
    let mut t = into_tokens(&arr);
    assert_eq!(t.next(), Some(&1));
    assert_eq!(t.next(), None);
    assert_eq!(t.next(), None);
    assert_eq!(t.next(), None);
    assert_eq!(t.consumed(), &[1]);
    assert_eq!(t.remaining(), &[] as &[i32]);
}

#[test]
fn empty_input_exhausts_immediately() {
    let arr: [u8; 0] = [];
    let mut t = into_tokens(&arr);
    assert_eq!(t.next(), None);
    assert_eq!(t.consumed(), &[] as &[u8]);
    assert_eq!(t.remaining(), &[] as &[u8]);
}

#[test]
fn works_for_non_copy_item_types() {
    let arr = [String::from("x"), String::from("y")];
    let mut t = into_tokens(&arr);
    assert_eq!(t.next().map(|s| s.as_str()), Some("x"));
    assert_eq!(t.next().map(|s| s.as_str()), Some("y"));
    assert_eq!(t.next(), None);
}
