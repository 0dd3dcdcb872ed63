use wt::config::LanguageServer;
use wt::dict::Dict;

#[test]
fn a_language_server_defaults_to_its_key() {
    let php = LanguageServer {
        command: "phpantom_lsp".to_string(),
        args: Vec::new(),
        env: Dict::new(),
        extensions: vec!["php".to_string(), "blade.php".to_string()],
        language: None,
    };
    assert_eq!(php.command, "phpantom_lsp");
    assert_eq!(php.language_id("php"), "php");
    assert!(php.args.is_empty());
    assert_eq!(php.extensions, ["php", "blade.php"]);

    let mut env = Dict::new();
    env.insert("RA_LOG".to_string(), "info".to_string());
    let rust = LanguageServer {
        command: "rust-analyzer".to_string(),
        args: vec!["--log-file".to_string(), "/tmp/ra.log".to_string()],
        env,
        extensions: Vec::new(),
        language: Some("rust".to_string()),
    };
    assert_eq!(rust.language_id("rust"), "rust");
    assert_eq!(rust.env.get("RA_LOG").unwrap(), "info");
    assert_eq!(rust.args.len(), 2);

    let renamed = LanguageServer { language: Some("blade".to_string()), ..php };
    assert_eq!(renamed.language_id("php"), "blade");
}
