use hephaestus::syntax::language;

#[test]
fn file_extensions_select_their_language() {
    assert_eq!(language(Some("src/main.rs")), "rust");
    assert_eq!(language(Some("src/main.c")), "c");
    assert_eq!(language(Some("include/main.h")), "c");
    assert_eq!(language(Some("Program.cs")), "c_sharp");
    assert_eq!(language(Some("main.go")), "go");
    assert_eq!(language(Some("Main.java")), "java");
    assert_eq!(language(Some("index.js")), "javascript");
    assert_eq!(language(Some("index.jsx")), "jsx");
    assert_eq!(language(Some("index.mjs")), "javascript");
    assert_eq!(language(Some("index.cjs")), "javascript");
    assert_eq!(language(Some("index.ts")), "typescript");
    assert_eq!(language(Some("index.mts")), "typescript");
    assert_eq!(language(Some("index.cts")), "typescript");
    assert_eq!(language(Some("view.tsx")), "tsx");
    assert_eq!(language(Some("main.zig")), "zig");
    assert_eq!(language(Some("notes.txt")), "plain_text");
    assert_eq!(language(Some("Makefile")), "plain_text");
    assert_eq!(language(None), "plain_text");
}

#[test]
fn hidden_files_and_trailing_dots_have_no_extension() {
    assert_eq!(language(Some(".rs")), "plain_text");
    assert_eq!(language(Some("dir.rs/notes")), "plain_text");
    assert_eq!(language(Some("a.tar.rs")), "rust");
}
