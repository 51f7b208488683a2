use hephaestus::assets::{AppIcon, Assets};
use hephaestus::file_icons::FileKind;

fn kind(path: &str) -> FileKind {
    FileKind::of(path)
}

#[test]
fn detects_extensions() {
    assert_eq!(kind("src/main.rs"), FileKind::Rust);
    assert_eq!(kind("app/index.ts"), FileKind::TypeScript);
    assert_eq!(kind("app/index.tsx"), FileKind::TypeScript);
    assert_eq!(kind("app/index.js"), FileKind::JavaScript);
    assert_eq!(kind("package.json"), FileKind::Json);
    assert_eq!(kind("Cargo.lock"), FileKind::Lock);
    assert_eq!(kind("README.md"), FileKind::Markdown);
    assert_eq!(kind("Cargo.toml"), FileKind::Toml);
}

#[test]
fn detects_gitignore_by_name() {
    assert_eq!(kind(".gitignore"), FileKind::GitIgnore);
    assert_eq!(kind("crates/desktop/.gitignore"), FileKind::GitIgnore);
}

#[test]
fn ignores_extension_case() {
    assert_eq!(kind("NOTES.MD"), FileKind::Markdown);
    assert_eq!(kind("Config.TOML"), FileKind::Toml);
}

#[test]
fn falls_back_to_plain() {
    assert_eq!(kind("notes.txt"), FileKind::Plain);
    assert_eq!(kind("LICENSE"), FileKind::Plain);
    assert_eq!(kind("src"), FileKind::Plain);
}

#[test]
fn file_name_ignores_trailing_separators_and_dots() {
    assert_eq!(kind("src/lib.rs/"), FileKind::Rust);
    assert_eq!(kind("src/lib.rs/."), FileKind::Rust);
    assert_eq!(kind("src//Cargo.toml"), FileKind::Toml);
    assert_eq!(kind("docs/.."), FileKind::Plain);
    assert_eq!(kind("/"), FileKind::Plain);
    assert_eq!(kind(".GitIgnore"), FileKind::GitIgnore);
    assert_eq!(kind(".md"), FileKind::Plain);
    assert_eq!(kind("index.d.mts"), FileKind::TypeScript);
}

#[test]
fn each_kind_has_its_icon() {
    assert_eq!(FileKind::GitIgnore.icon(), AppIcon::FileIgnored);
    assert_eq!(FileKind::Rust.icon(), AppIcon::FileRust);
    assert_eq!(FileKind::Plain.icon(), AppIcon::File);
    assert_eq!(kind("a/b.jsonc").icon(), AppIcon::FileJson);
}

#[test]
fn the_asset_source_serves_and_lists_its_own_icons() {
    assert_eq!(Assets.icon("icons/app/file-rust.svg"), Some(AppIcon::FileRust));
    assert_eq!(Assets.icon("icons/app/file-rust"), None);
    assert_eq!(Assets.icon("icons/close.svg"), None);
    let listed = Assets.listed("icons/app/file-");
    assert_eq!(listed.len(), 8);
    assert_eq!(listed[0], "icons/app/file-ignored.svg");
    assert_eq!(listed[7], "icons/app/file-typescript.svg");
    assert_eq!(Assets.listed("icons/app/").len(), 13);
    assert!(Assets.listed("icons/lucide/").is_empty());
}
