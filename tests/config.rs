use starpls::config::{
    ClientCapabilities, CompletionClientCapabilities, CompletionItemCapability, GotoCapability,
    ServerConfig, TextDocumentClientCapabilities,
};

#[test]
fn absent_capabilities_mean_no_support() {
    let config = ServerConfig::default();
    assert!(!config.has_text_document_definition_link_support());
    assert!(!config.has_insert_replace_support());
    let partial = ServerConfig {
        caps: ClientCapabilities {
            text_document: Some(TextDocumentClientCapabilities {
                definition: Some(GotoCapability { dynamic_registration: Some(true), link_support: None }),
                completion: Some(CompletionClientCapabilities { dynamic_registration: None, completion_item: None }),
            }),
        },
    };
    assert!(!partial.has_text_document_definition_link_support());
    assert!(!partial.has_insert_replace_support());
}

#[test]
fn declared_capabilities_are_read() {
    let config = ServerConfig {
        caps: ClientCapabilities {
            text_document: Some(TextDocumentClientCapabilities {
                definition: Some(GotoCapability { dynamic_registration: None, link_support: Some(true) }),
                completion: Some(CompletionClientCapabilities {
                    dynamic_registration: None,
                    completion_item: Some(CompletionItemCapability {
                        snippet_support: None,
                        insert_replace_support: Some(true),
                    }),
                }),
            }),
        },
    };
    assert!(config.has_text_document_definition_link_support());
    assert!(config.has_insert_replace_support());
    let mut off = config;
    off.caps.text_document.as_mut().unwrap().definition.as_mut().unwrap().link_support = Some(false);
    assert!(!off.has_text_document_definition_link_support());
}
