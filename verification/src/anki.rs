//! Request data of the flashcard export.

use vstd::prelude::*;

verus! {

/// A request to attach a page image and a sentence to the newest card.
pub struct UpdateCardRequest {
    /// Path of the image on the content server.
    pub image_path: String,
    /// The sentence taken from the text box.
    pub sentence: String,
    /// Card field that receives the sentence, if any.
    pub sentence_field: Option<String>,
    /// Card field that receives the image, if any.
    pub image_field: Option<String>,
}

} // verus!
