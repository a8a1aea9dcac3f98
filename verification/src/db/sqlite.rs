//! What an edit changes in the document database.
use crate::db::helper::Document;
use vstd::prelude::*;

verus! {

/// The columns an edit writes.
#[derive(PartialEq, Eq, Structural, Debug, Clone, Copy)]
pub enum DocumentUpdate {
    /// No column: the edit sent neither a name nor a text.
    Nothing,
    /// Only the text: the edit sent no name.
    Text,
    /// Only the name: the edit sent a name but no text.
    Name,
    /// Both the name and the text.
    NameAndText,
}

/// The columns an edit to `doc` writes: an empty name means the name is
/// kept, and an empty text means the text is kept.
pub fn document_update(doc: &Document) -> (r: DocumentUpdate)
    ensures
        r == (if doc.name@.len() == 0 && doc.text@.len() == 0 {
            DocumentUpdate::Nothing
        } else if doc.name@.len() == 0 {
            DocumentUpdate::Text
        } else if doc.text@.len() == 0 {
            DocumentUpdate::Name
        } else {
            DocumentUpdate::NameAndText
        }),
{
    if doc.name.as_str().is_empty() && doc.text.as_str().is_empty() {
        DocumentUpdate::Nothing
    } else if doc.name.as_str().is_empty() {
        DocumentUpdate::Text
    } else if doc.text.as_str().is_empty() {
        DocumentUpdate::Name
    } else {
        DocumentUpdate::NameAndText
    }
}

} // verus!
