//! Wire types of the generation service: the request sent to it and the
//! records it streams back, together with the model listings it serves.

use vstd::prelude::*;

verus! {

/// A generation request: which model, what prompt, and whether the response
/// should be streamed record by record.
#[derive(Debug, Clone)]
pub struct GenerateRequest {
    pub model: String,
    pub prompt: String,
    pub system: Option<String>,
    pub stream: bool,
}

/// One decoded response record: a visible-text fragment, a reasoning-text
/// fragment, and the completion flag. Either text may be empty; both may be
/// empty on a record that only signals finality.
#[derive(Debug, Clone, PartialEq, Eq)]
pub struct GenerateResponse {
    pub response: String,
    pub thinking: String,
    pub done: bool,
}

impl GenerateResponse {
    /// The text content of the record: the visible text when there is any,
    /// else the reasoning text.
    pub fn get_text(&self) -> (r: &str)
        ensures
            r@ == (if self.response@.len() == 0 {
                self.thinking@
            } else {
                self.response@
            }),
    {
        if self.response.as_str().is_empty() {
            self.thinking.as_str()
        } else {
            self.response.as_str()
        }
    }
}

/// One entry of the service's model listing.
#[derive(Debug, Clone)]
pub struct ModelInfo {
    pub name: String,
    pub modified_at: String,
    pub size: u64,
}

/// The service's model listing.
#[derive(Debug, Clone)]
pub struct TagsResponse {
    pub models: Vec<ModelInfo>,
}

/// Details of one model as the service reports them.
#[derive(Debug, Clone)]
pub struct ModelDetails {
    pub parent_model: String,
    pub format: String,
    pub family: String,
    pub families: Vec<String>,
    pub parameter_size: String,
    pub quantization_level: String,
}

} // verus!
