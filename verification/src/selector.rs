//! The tags of a note, and the decision to publish it.

use vstd::prelude::*;

verus! {

/// The list of strings that `serde_yaml` reads under the top-level key `key` of the YAML
/// document `text`, or `None` where it reads none: where `text` is not one YAML document,
/// where the document is no mapping or has no such key, or where what stands under the key is
/// not a list of strings. (A key without a value reads as the empty list.)
pub uninterp spec fn yaml_string_list(text: Seq<u8>, key: Seq<char>) -> Option<Seq<Seq<char>>>;

/// Reads the list of strings under the top-level key `key` of the YAML document `text`.
///
/// Trusted: the body calls `serde_yaml::from_slice` to load the document as a
/// `serde_yaml::Value`, `Value::get` to look the key up, and `serde_yaml::from_value` to read
/// what stands there as a `Vec<String>`. Where one of the three cannot go on it returns an
/// error or `None`; none of them panics. The contract claims one thing: that the result
/// depends on the text and the key alone.
#[verifier::external_body]
fn string_list_at(text: &[u8], key: &str) -> (list: Option<Vec<String>>)
    ensures
        list.deep_view() == yaml_string_list(text@, key@),
{
    let document: serde_yaml::Value = serde_yaml::from_slice(text).ok()?;
    serde_yaml::from_value(document.get(key)?.clone()).ok()
}

/// The tag that marks a note for publication.
pub open spec fn publish_tag() -> Seq<char> {
    "publish"@
}

/// The key of the preamble under which the tags of a note stand.
pub open spec fn tags_key() -> Seq<char> {
    "tags"@
}

/// What a preamble says of the selection of its note: the tags, in their order. They are a
/// set in meaning, and a tag may occur more than once.
#[derive(Debug, Clone, PartialEq, Eq)]
pub struct Selector {
    pub tags: Vec<String>,
}

impl View for Selector {
    type V = Seq<Seq<char>>;

    open spec fn view(&self) -> Seq<Seq<char>> {
        self.tags.deep_view()
    }
}

/// The tags that a decoded list stands for: the list itself, and no tag where there is none.
pub open spec fn tags_of(list: Option<Seq<Seq<char>>>) -> Seq<Seq<char>> {
    match list {
        Some(tags) => tags,
        None => Seq::empty(),
    }
}

/// The tags of a preamble: the list of strings under its key `tags`. An empty preamble has
/// none, and neither has one that is no YAML document, that has no key `tags`, or that holds
/// anything but a list of strings there.
pub open spec fn selector_of(preamble: Seq<u8>) -> Seq<Seq<char>> {
    if preamble.len() == 0 {
        Seq::empty()
    } else {
        tags_of(yaml_string_list(preamble, tags_key()))
    }
}

/// Whether a list of tags selects its note for publication: one of them is `publish`, letter
/// for letter.
pub open spec fn selects(tags: Seq<Seq<char>>) -> bool {
    tags.contains(publish_tag())
}

/// The tags are a set in meaning: two lists that hold the same tags, in whatever order and
/// however often, select alike.
pub proof fn lemma_selection_goes_by_the_set(a: Seq<Seq<char>>, b: Seq<Seq<char>>)
    requires
        a.to_set() == b.to_set(),
    ensures
        selects(a) == selects(b),
{
    assert(a.contains(publish_tag()) == a.to_set().contains(publish_tag()));
    assert(b.contains(publish_tag()) == b.to_set().contains(publish_tag()));
}

impl Selector {
    /// The selector without a tag.
    pub fn empty() -> (selector: Selector)
        ensures
            selector@ == Seq::<Seq<char>>::empty(),
    {
        let selector = Selector { tags: Vec::new() };
        assert(selector@ =~= Seq::<Seq<char>>::empty());
        selector
    }

    /// The selector for a list of tags as it was decoded; `None`, for a preamble that could
    /// not be decoded, gives the selector without a tag.
    pub fn from_decoded(list: Option<Vec<String>>) -> (selector: Selector)
        ensures
            selector@ == tags_of(list.deep_view()),
    {
        match list {
            Some(tags) => Selector { tags },
            None => Selector::empty(),
        }
    }

    /// Whether the note is to be published.
    pub fn should_publish(&self) -> (publish: bool)
        ensures
            publish == selects(self@),
    {
        let wanted = String::from_str("publish");
        let mut i: usize = 0;
        while i < self.tags.len()
            invariant
                i <= self.tags.len(),
                wanted@ == publish_tag(),
                forall|k: int| 0 <= k < i ==> self@[k] != publish_tag(),
            decreases self.tags.len() - i,
        {
            if self.tags[i] == wanted {
                assert(self@[i as int] == publish_tag());
                return true;
            }
            i += 1;
        }
        false
    }
}

/// Decodes a preamble into the selector of its note. A preamble that cannot be decoded is no
/// failure: it gives the selector without a tag.
pub fn decode_preamble(preamble: &[u8]) -> (selector: Selector)
    ensures
        selector@ == selector_of(preamble@),
{
    if preamble.len() == 0 {
        Selector::empty()
    } else {
        Selector::from_decoded(string_list_at(preamble, "tags"))
    }
}

} // verus!
