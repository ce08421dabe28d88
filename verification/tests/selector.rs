use vault_publish::selector::{decode_preamble, Selector};

fn tags(list: &[&str]) -> Selector {
    Selector { tags: list.iter().map(|tag| tag.to_string()).collect() }
}

#[test]
fn tags_are_decoded_in_their_order() {
    assert_eq!(decode_preamble(b"tags: [publish]"), tags(&["publish"]));
    assert_eq!(decode_preamble(b"tags: [b, a, c]\n"), tags(&["b", "a", "c"]));
    assert_eq!(decode_preamble(b"tags:\n  - one\n  - two\n"), tags(&["one", "two"]));
    assert_eq!(decode_preamble(b"tags:\n- one\n- two\n"), tags(&["one", "two"]));
}

#[test]
fn tags_may_occur_twice() {
    assert_eq!(decode_preamble(b"tags: [a, b, a]"), tags(&["a", "b", "a"]));
}

#[test]
fn other_keys_are_passed_over() {
    assert_eq!(
        decode_preamble(b"title: A note\ndate: 2020-01-02\ntags: [x]\nnested:\n  tags: [y]\n"),
        tags(&["x"])
    );
}

#[test]
fn quoted_tags_are_strings() {
    assert_eq!(
        decode_preamble(b"tags: ['1', \"true\", ' publish']"),
        tags(&["1", "true", " publish"])
    );
}

#[test]
fn empty_list_of_tags_is_decoded() {
    assert_eq!(decode_preamble(b"tags: []"), Selector::empty());
}

#[test]
fn empty_preamble_has_no_tags() {
    assert_eq!(decode_preamble(b""), Selector::empty());
    assert_eq!(decode_preamble(b""), tags(&[]));
}

#[test]
fn preamble_that_is_no_yaml_has_no_tags() {
    assert_eq!(decode_preamble(b"tags: [publish"), Selector::empty());
    assert_eq!(decode_preamble(b"tags: [a]\n  bad: - indent: ["), Selector::empty());
    assert_eq!(decode_preamble(b"\"unclosed"), Selector::empty());
    assert_eq!(decode_preamble(&[0x74, 0x61, 0x67, 0x73, 0x3a, 0x20, 0xff]), Selector::empty());
}

#[test]
fn preamble_without_the_key_has_no_tags() {
    assert_eq!(decode_preamble(b"title: A note\n"), Selector::empty());
    assert_eq!(decode_preamble(b"Tags: [publish]\n"), Selector::empty());
    assert_eq!(decode_preamble(b"tag: [publish]\n"), Selector::empty());
    assert_eq!(decode_preamble(b"meta:\n  tags: [publish]\n"), Selector::empty());
}

#[test]
fn preamble_that_is_no_mapping_has_no_tags() {
    assert_eq!(decode_preamble(b"publish"), Selector::empty());
    assert_eq!(decode_preamble(b"- publish\n"), Selector::empty());
    assert_eq!(decode_preamble(b"- [publish]\n"), Selector::empty());
    assert_eq!(decode_preamble(b"[tags, publish]"), Selector::empty());
}

#[test]
fn tags_that_are_no_list_of_strings_give_no_tags() {
    assert_eq!(decode_preamble(b"tags: not-a-list"), Selector::empty());
    assert_eq!(decode_preamble(b"tags: publish"), Selector::empty());
    assert_eq!(decode_preamble(b"tags: 3"), Selector::empty());
    assert_eq!(decode_preamble(b"tags:\n  publish: true\n"), Selector::empty());
    assert_eq!(decode_preamble(b"tags: [publish, 1]"), Selector::empty());
    assert_eq!(decode_preamble(b"tags: [publish, true]"), Selector::empty());
    assert_eq!(decode_preamble(b"tags: [publish, [nested]]"), Selector::empty());
    assert_eq!(decode_preamble(b"tags: [publish, ~]"), Selector::empty());
}

#[test]
fn decoded_list_becomes_the_selector() {
    assert_eq!(Selector::from_decoded(None), Selector::empty());
    assert_eq!(Selector::from_decoded(Some(vec![])), Selector::empty());
    assert_eq!(
        Selector::from_decoded(Some(vec!["a".to_string(), "publish".to_string()])),
        tags(&["a", "publish"])
    );
}

#[test]
fn publish_tag_selects() {
    assert!(tags(&["publish"]).should_publish());
    assert!(tags(&["draft", "publish"]).should_publish());
    assert!(tags(&["publish", "publish"]).should_publish());
    assert!(tags(&["a", "b", "publish", "c"]).should_publish());
}

#[test]
fn other_tags_do_not_select() {
    assert!(!Selector::empty().should_publish());
    assert!(!tags(&["draft"]).should_publish());
    assert!(!tags(&["a", "b", "c"]).should_publish());
}

#[test]
fn tag_is_matched_letter_for_letter() {
    assert!(!tags(&["Publish"]).should_publish());
    assert!(!tags(&["PUBLISH"]).should_publish());
    assert!(!tags(&[" publish"]).should_publish());
    assert!(!tags(&["publish "]).should_publish());
    assert!(!tags(&["publish\n"]).should_publish());
    assert!(!tags(&["published"]).should_publish());
    assert!(!tags(&["publis"]).should_publish());
    assert!(!tags(&["#publish"]).should_publish());
    assert!(!tags(&[""]).should_publish());
}

#[test]
fn decoded_preamble_decides_on_publication() {
    assert!(decode_preamble(b"tags: [publish]").should_publish());
    assert!(decode_preamble(b"tags:\n  - notes\n  - publish\n").should_publish());
    assert!(!decode_preamble(b"tags: [draft]").should_publish());
    assert!(!decode_preamble(b"tags: not-a-list").should_publish());
    assert!(!decode_preamble(b"tags: [Publish]").should_publish());
    assert!(!decode_preamble(b"").should_publish());
}
