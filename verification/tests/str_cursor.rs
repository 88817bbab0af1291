use yap_tokens::str_tokens::into_tokens;

#[test]
fn multi_byte_characters_decode_in_order_with_boundary_offsets() {
    let mut t = into_tokens("a\u{1F600}b");
    assert_eq!(t.next(), Some('a'));
    assert_eq!(t.consumed().len(), 1);
    assert_eq!(t.remaining(), "\u{1F600}b");
    assert_eq!(t.next(), Some('\u{1F600}'));
    assert_eq!(t.consumed().len(), 5);
    assert_eq!(t.next(), Some('b'));
    assert_eq!(t.consumed().len(), 6);
    assert_eq!(t.next(), None);
}

#[test]
fn ascii_text_produces_each_character() {
    let mut t = into_tokens("hello");
    assert_eq!(t.next(), Some('h'));
    assert_eq!(t.next(), Some('e'));
    assert_eq!(t.next(), Some('l'));
    assert_eq!(t.next(), Some('l'));
    assert_eq!(t.next(), Some('o'));
    assert_eq!(t.next(), None);
}

#[test]
fn text_consumed_concat_remaining_reconstructs_source_at_every_position() {
    let text = "h\u{e9}llo";
    let mut t = into_tokens(text);
    loop {
        let joined = format!("{}{}", t.consumed(), t.remaining());
        assert_eq!(joined, text);
        if t.next().is_none() {
            break;
        }
    }
}

#[test]
fn into_source_recovers_full_text_after_consumption() {
    let mut t = into_tokens("caf\u{e9}");
    t.next();
    t.next();
    let source = t.into_source();
    assert_eq!(source, "caf\u{e9}");
}

#[test]
fn text_cursor_converts_to_itself() {
    let mut t = into_tokens("ok").into_tokens();
    assert_eq!(t.next(), Some('o'));
}

#[test]
fn text_rewind_restores_remaining_to_what_it_was_at_save() {
    let mut t = into_tokens("x\u{1F600}\u{e9}z");
    assert_eq!(t.next(), Some('x'));
    let before = t.remaining().to_string();
    let cp = t.save_checkpoint();
    assert_eq!(t.next(), Some('\u{1F600}'));
    assert_eq!(t.next(), Some('\u{e9}'));
    t.rewind_to_checkpoint(cp);
    assert_eq!(t.remaining(), before);
    assert_eq!(t.consumed(), "x");
    assert_eq!(t.next(), Some('\u{1F600}'));
}

#[test]
fn text_exhaustion_repeats_without_advancing() {
    let mut t = into_tokens("q");
    assert_eq!(t.next(), Some('q'));
    assert_eq!(t.next(), None);
    assert_eq!(t.next(), None);
    assert_eq!(t.next(), None);
    assert_eq!(t.consumed(), "q");
    assert_eq!(t.remaining(), "");
}

#[test]
fn text_empty_input_exhausts_immediately() {
    let mut t = into_tokens("");
    assert_eq!(t.next(), None);
    assert_eq!(t.consumed(), "");
    assert_eq!(t.remaining(), "");
}
