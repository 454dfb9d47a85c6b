//! The client capabilities that the server consults, as plain values.
use vstd::prelude::*;

verus! {

#[derive(Clone, Copy, Debug, PartialEq, Eq, Structural, Default)]
pub struct GotoCapability {
    pub dynamic_registration: Option<bool>,
    pub link_support: Option<bool>,
}

#[derive(Clone, Copy, Debug, PartialEq, Eq, Structural, Default)]
pub struct CompletionItemCapability {
    pub snippet_support: Option<bool>,
    pub insert_replace_support: Option<bool>,
}

#[derive(Clone, Copy, Debug, PartialEq, Eq, Structural, Default)]
pub struct CompletionClientCapabilities {
    pub dynamic_registration: Option<bool>,
    pub completion_item: Option<CompletionItemCapability>,
}

#[derive(Clone, Copy, Debug, PartialEq, Eq, Structural, Default)]
pub struct TextDocumentClientCapabilities {
    pub definition: Option<GotoCapability>,
    pub completion: Option<CompletionClientCapabilities>,
}

#[derive(Clone, Copy, Debug, PartialEq, Eq, Structural, Default)]
pub struct ClientCapabilities {
    pub text_document: Option<TextDocumentClientCapabilities>,
}

/// What the server knows of its client.
#[derive(Clone, Copy, Debug, PartialEq, Eq, Structural, Default)]
pub struct ServerConfig {
    pub caps: ClientCapabilities,
}

/// Whether the client declares support for definition links; an absent
/// capability counts as no support.
pub open spec fn definition_link_support(c: ClientCapabilities) -> bool {
    match c.text_document {
        Some(td) => match td.definition {
            Some(d) => d.link_support == Some(true),
            None => false,
        },
        None => false,
    }
}

/// Whether the client declares support for insert-and-replace completion
/// edits; an absent capability counts as no support.
pub open spec fn insert_replace_support(c: ClientCapabilities) -> bool {
    match c.text_document {
        Some(td) => match td.completion {
            Some(comp) => match comp.completion_item {
                Some(item) => item.insert_replace_support == Some(true),
                None => false,
            },
            None => false,
        },
        None => false,
    }
}

impl ServerConfig {
    pub fn has_text_document_definition_link_support(&self) -> (r: bool)
        ensures
            r == definition_link_support(self.caps),
    {
        match self.caps.text_document {
            Some(td) => match td.definition {
                Some(d) => match d.link_support {
                    Some(b) => b,
                    None => false,
                },
                None => false,
            },
            None => false,
        }
    }

    pub fn has_insert_replace_support(&self) -> (r: bool)
        ensures
            r == insert_replace_support(self.caps),
    {
        match self.caps.text_document {
            Some(td) => match td.completion {
                Some(comp) => match comp.completion_item {
                    Some(item) => match item.insert_replace_support {
                        Some(b) => b,
                        None => false,
                    },
                    None => false,
                },
                None => false,
            },
            None => false,
        }
    }
}

} // verus!
