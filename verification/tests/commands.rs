use hephaestus::commands::{bindings, default_keybindings, Command, Keys};

#[test]
fn default_keys_use_the_platform_modifier() {
    assert_eq!(Command::SaveFile.default_keys(false), ["ctrl-s"]);
    assert_eq!(Command::SaveFile.default_keys(true), ["cmd-s"]);
    assert_eq!(Command::OpenFolder.default_keys(false), ["ctrl-k ctrl-o"]);
    assert_eq!(Command::ToggleFold.default_keys(true), ["cmd-shift-[", "cmd-k cmd-l"]);
    assert_eq!(Command::NextTab.default_keys(true), ["ctrl-tab", "ctrl-pagedown"]);
    assert_eq!(Command::TerminalCopy.default_keys(false), ["ctrl-shift-c"]);
    assert_eq!(Command::TerminalPaste.default_keys(true), ["cmd-v"]);
    assert!(Command::ToggleVimMode.default_keys(false).is_empty());
}

#[test]
fn every_command_has_a_snake_case_name_and_a_default_binding() {
    let all = Command::all();
    assert_eq!(all.len(), 26);
    assert_eq!(Command::CloneRepository.name(), "clone_repository");
    assert_eq!(Command::ShowGitPanel.name(), "show_git_panel");
    assert_eq!(Command::TerminalPaste.name(), "terminal_paste");
    let bindings = default_keybindings(false);
    assert_eq!(bindings.len(), 26);
    assert_eq!(bindings[0], (Command::NewFile, Keys::One("ctrl-n".into())));
    assert_eq!(
        bindings[7],
        (
            Command::NextTab,
            Keys::Many(vec!["ctrl-tab".into(), "ctrl-pagedown".into()])
        )
    );
    assert_eq!(bindings[3], (Command::CloneRepository, Keys::Many(vec![])));
    for (i, (command, _)) in bindings.iter().enumerate() {
        assert_eq!(*command, all[i]);
    }
}

#[test]
fn keys_list_one_or_many() {
    assert_eq!(Keys::One("ctrl-a".into()).iter(), ["ctrl-a"]);
    assert_eq!(Keys::Many(vec!["a".into(), "b".into()]).iter(), ["a", "b"]);
    assert_eq!(Keys::from_list(vec!["x".into()]), Keys::One("x".into()));
    assert_eq!(Keys::from_list(vec![]), Keys::Many(vec![]));
}

#[test]
fn configured_keys_replace_defaults_and_blank_keys_bind_nothing() {
    let configured = vec![
        (Command::SaveFile, Keys::Many(vec!["ctrl-alt-s".to_string(), "  ".to_string()])),
        (Command::NewFile, Keys::Many(Vec::new())),
        (Command::ToggleVimMode, Keys::One("ctrl-alt-v".to_string())),
    ];
    let bound = bindings(&configured, false);
    let keys_of = |command: Command| -> Vec<String> {
        bound.iter().filter(|(c, _)| *c == command).map(|(_, k)| k.clone()).collect()
    };
    assert_eq!(keys_of(Command::SaveFile), ["ctrl-alt-s"]);
    assert!(keys_of(Command::NewFile).is_empty());
    assert_eq!(keys_of(Command::ToggleVimMode), ["ctrl-alt-v"]);
    assert_eq!(keys_of(Command::OpenFile), ["ctrl-o"]);
    assert_eq!(bound[0], (Command::OpenFile, "ctrl-o".to_string()));
    let defaults = bindings(&Vec::new(), true);
    assert_eq!(defaults[0], (Command::NewFile, "cmd-n".to_string()));
    assert!(defaults.iter().all(|(c, _)| *c != Command::CloneRepository));
}
