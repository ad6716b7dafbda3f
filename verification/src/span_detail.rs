//! The attribute block of an expanded span: its JSON attributes as
//! key/value lines, or the raw text when it is no JSON object.

use vstd::prelude::*;

verus! {

/// The entries serde_json reads from `text` when it parses as a JSON object,
/// in the order its map keeps them, each value as the view shows it (a string
/// as is, anything else in its JSON rendering); `None` when `text` does not
/// parse or is no object.
pub uninterp spec fn json_object_entries_spec(text: Seq<char>) -> Option<Seq<(Seq<char>, Seq<char>)>>;

pub open spec fn entry_views(v: Seq<(String, String)>) -> Seq<(Seq<char>, Seq<char>)> {
    v.map_values(|e: (String, String)| (e.0@, e.1@))
}

pub open spec fn opt_entry_views(o: Option<Vec<(String, String)>>) -> Option<Seq<(Seq<char>, Seq<char>)>> {
    match o {
        Some(v) => Some(entry_views(v@)),
        None => None,
    }
}

/// Calls `serde_json::from_str::<serde_json::Value>` and, for an object,
/// walks its entries: a string value as is, any other value by `Value`'s
/// `Display`. The contract only names the result; what parsing accepts and
/// how values render is not stated.
#[verifier::external_body]
fn json_object_entries(text: &str) -> (r: Option<Vec<(String, String)>>)
    ensures
        opt_entry_views(r) == json_object_entries_spec(text@),
{
    match serde_json::from_str::<serde_json::Value>(text) {
        Ok(serde_json::Value::Object(map)) => Some(
            map.iter().map(|(k, v)| (k.clone(), match v {
                serde_json::Value::String(s) => s.clone(),
                other => other.to_string(),
            })).collect(),
        ),
        _ => None,
    }
}

/// What the attribute block of a span shows.
pub enum AttributeText {
    /// No block: the span has no attributes, or empty ones.
    Nothing,
    /// One line per entry of the JSON object.
    Entries(Vec<(String, String)>),
    /// The attributes as they are.
    Raw(String),
}

/// An attribute block as values.
pub enum AttributeView {
    Nothing,
    Entries(Seq<(Seq<char>, Seq<char>)>),
    Raw(Seq<char>),
}

pub open spec fn attribute_view(a: AttributeText) -> AttributeView {
    match a {
        AttributeText::Nothing => AttributeView::Nothing,
        AttributeText::Entries(v) => AttributeView::Entries(entry_views(v@)),
        AttributeText::Raw(t) => AttributeView::Raw(t@),
    }
}

/// The block for attributes `attrs`, given what reading them as a JSON
/// object gives (`entries`): nothing for missing or empty attributes, the
/// entries of an object, else the raw text.
pub open spec fn attribute_block(
    attrs: Option<Seq<char>>,
    entries: Option<Seq<(Seq<char>, Seq<char>)>>,
) -> AttributeView {
    match attrs {
        None => AttributeView::Nothing,
        Some(t) => if t.len() == 0 {
            AttributeView::Nothing
        } else {
            match entries {
                Some(e) => AttributeView::Entries(e),
                None => AttributeView::Raw(t),
            }
        },
    }
}

/// The attribute block, from the attributes and what reading them as a JSON
/// object gave.
pub fn attribute_text_of(attrs: &Option<String>, entries: Option<Vec<(String, String)>>) -> (r: AttributeText)
    ensures
        attribute_view(r) == attribute_block(attrs.deep_view(), opt_entry_views(entries)),
{
    match attrs {
        None => AttributeText::Nothing,
        Some(t) => {
            if t.unicode_len() == 0 {
                AttributeText::Nothing
            } else {
                match entries {
                    Some(e) => AttributeText::Entries(e),
                    None => AttributeText::Raw(crate::text::string_of(t.as_str())),
                }
            }
        },
    }
}

/// The attribute block of a span with attributes `attrs`.
pub fn attribute_text(attrs: &Option<String>) -> (r: AttributeText)
    ensures
        attribute_view(r) == attribute_block(
            attrs.deep_view(),
            match attrs.deep_view() {
                Some(t) => json_object_entries_spec(t),
                None => None,
            },
        ),
{
    match attrs {
        None => attribute_text_of(attrs, None),
        Some(t) => {
            let entries = if t.unicode_len() == 0 {
                None
            } else {
                json_object_entries(t.as_str())
            };
            attribute_text_of(attrs, entries)
        },
    }
}

} // verus!
