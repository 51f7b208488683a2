//! The commands that key bindings can trigger and their default keys.

use vstd::prelude::*;
use vstd::string::*;

verus! {

/// A command that a key binding can trigger. The settings file names each
/// in snake case (see [`Command::name`]).
#[derive(Clone, Copy, Debug, PartialEq, Eq, Structural, PartialOrd, Ord, Hash)]
pub enum Command {
    NewFile,
    OpenFile,
    OpenFolder,
    CloneRepository,
    SaveFile,
    SaveFileAs,
    CloseTab,
    NextTab,
    PreviousTab,
    CloseWindow,
    OpenSettings,
    EditSettings,
    ReloadSettings,
    ShowFolderPanel,
    ShowGitPanel,
    ToggleTerminal,
    ShowDebugPanel,
    ToggleVimMode,
    ToggleFold,
    Commit,
    StageAll,
    Pull,
    Push,
    Fetch,
    TerminalCopy,
    TerminalPaste,
}

/// Every command, in order.
pub open spec fn all_commands() -> Seq<Command> {
    seq![
        Command::NewFile,
        Command::OpenFile,
        Command::OpenFolder,
        Command::CloneRepository,
        Command::SaveFile,
        Command::SaveFileAs,
        Command::CloseTab,
        Command::NextTab,
        Command::PreviousTab,
        Command::CloseWindow,
        Command::OpenSettings,
        Command::EditSettings,
        Command::ReloadSettings,
        Command::ShowFolderPanel,
        Command::ShowGitPanel,
        Command::ToggleTerminal,
        Command::ShowDebugPanel,
        Command::ToggleVimMode,
        Command::ToggleFold,
        Command::Commit,
        Command::StageAll,
        Command::Pull,
        Command::Push,
        Command::Fetch,
        Command::TerminalCopy,
        Command::TerminalPaste,
    ]
}

/// The name of a command in the settings file.
pub open spec fn name_of(c: Command) -> Seq<char> {
    match c {
        Command::NewFile => "new_file"@,
        Command::OpenFile => "open_file"@,
        Command::OpenFolder => "open_folder"@,
        Command::CloneRepository => "clone_repository"@,
        Command::SaveFile => "save_file"@,
        Command::SaveFileAs => "save_file_as"@,
        Command::CloseTab => "close_tab"@,
        Command::NextTab => "next_tab"@,
        Command::PreviousTab => "previous_tab"@,
        Command::CloseWindow => "close_window"@,
        Command::OpenSettings => "open_settings"@,
        Command::EditSettings => "edit_settings"@,
        Command::ReloadSettings => "reload_settings"@,
        Command::ShowFolderPanel => "show_folder_panel"@,
        Command::ShowGitPanel => "show_git_panel"@,
        Command::ToggleTerminal => "toggle_terminal"@,
        Command::ShowDebugPanel => "show_debug_panel"@,
        Command::ToggleVimMode => "toggle_vim_mode"@,
        Command::ToggleFold => "toggle_fold"@,
        Command::Commit => "commit"@,
        Command::StageAll => "stage_all"@,
        Command::Pull => "pull"@,
        Command::Push => "push"@,
        Command::Fetch => "fetch"@,
        Command::TerminalCopy => "terminal_copy"@,
        Command::TerminalPaste => "terminal_paste"@,
    }
}

/// The modifier of most shortcuts: Command on macOS, Control elsewhere.
pub open spec fn primary(mac: bool) -> Seq<char> {
    if mac {
        "cmd"@
    } else {
        "ctrl"@
    }
}

/// The keys a command is bound to when the settings bind nothing else.
pub open spec fn default_keys_of(c: Command, mac: bool) -> Seq<Seq<char>> {
    match c {
        Command::NewFile => seq![primary(mac) + "-n"@],
        Command::OpenFile => seq![primary(mac) + "-o"@],
        Command::OpenFolder => seq![primary(mac) + "-k "@ + primary(mac) + "-o"@],
        Command::CloneRepository => Seq::empty(),
        Command::SaveFile => seq![primary(mac) + "-s"@],
        Command::SaveFileAs => seq![primary(mac) + "-shift-s"@],
        Command::CloseTab => seq![primary(mac) + "-w"@],
        Command::NextTab => seq!["ctrl-tab"@, "ctrl-pagedown"@],
        Command::PreviousTab => seq!["ctrl-shift-tab"@, "ctrl-pageup"@],
        Command::CloseWindow => seq![primary(mac) + "-shift-w"@],
        Command::OpenSettings => seq![primary(mac) + "-,"@],
        Command::EditSettings => Seq::empty(),
        Command::ReloadSettings => Seq::empty(),
        Command::ShowFolderPanel => seq![primary(mac) + "-shift-e"@],
        Command::ShowGitPanel => seq![primary(mac) + "-shift-g"@],
        Command::ToggleTerminal => seq!["ctrl-`"@],
        Command::ShowDebugPanel => seq![primary(mac) + "-shift-d"@],
        Command::ToggleVimMode => Seq::empty(),
        Command::ToggleFold => seq![primary(mac) + "-shift-["@, primary(mac) + "-k "@ + primary(mac) + "-l"@],
        Command::Commit => seq![primary(mac) + "-enter"@],
        Command::StageAll => seq![primary(mac) + "-shift-a"@],
        Command::Pull => seq![primary(mac) + "-shift-l"@],
        Command::Push => seq![primary(mac) + "-shift-k"@],
        Command::Fetch => seq![primary(mac) + "-shift-j"@],
        Command::TerminalCopy => seq![if mac { "cmd-c"@ } else { "ctrl-shift-c"@ }],
        Command::TerminalPaste => seq![if mac { "cmd-v"@ } else { "ctrl-shift-v"@ }],
    }
}

/// The primary modifier followed by `tail`.
fn chord(mac: bool, tail: &str) -> (res: String)
    ensures
        res@ == primary(mac) + tail@,
{
    let mut s = String::from_str(if mac {
        "cmd"
    } else {
        "ctrl"
    });
    s.append(tail);
    s
}

/// Two chords: the primary modifier and `a`, then the primary modifier and `b`.
fn chords(mac: bool, a: &str, b: &str) -> (res: String)
    ensures
        res@ == primary(mac) + a@ + primary(mac) + b@,
{
    let mut s = chord(mac, a);
    let t = chord(mac, b);
    s.append(t.as_str());
    s
}

/// The texts of a list of strings.
pub open spec fn texts(v: Seq<String>) -> Seq<Seq<char>> {
    Seq::new(v.len(), |i: int| v[i]@)
}

impl Command {
    /// Every command, in order.
    pub fn all() -> (res: Vec<Command>)
        ensures
            res@ == all_commands(),
    {
        let v = vec![
            Command::NewFile,
            Command::OpenFile,
            Command::OpenFolder,
            Command::CloneRepository,
            Command::SaveFile,
            Command::SaveFileAs,
            Command::CloseTab,
            Command::NextTab,
            Command::PreviousTab,
            Command::CloseWindow,
            Command::OpenSettings,
            Command::EditSettings,
            Command::ReloadSettings,
            Command::ShowFolderPanel,
            Command::ShowGitPanel,
            Command::ToggleTerminal,
            Command::ShowDebugPanel,
            Command::ToggleVimMode,
            Command::ToggleFold,
            Command::Commit,
            Command::StageAll,
            Command::Pull,
            Command::Push,
            Command::Fetch,
            Command::TerminalCopy,
            Command::TerminalPaste,
        ];
        assert(v@ =~= all_commands());
        v
    }

    /// The name of the command in the settings file.
    pub fn name(self) -> (res: String)
        ensures
            res@ == name_of(self),
    {
        String::from_str(match self {
            Command::NewFile => "new_file",
            Command::OpenFile => "open_file",
            Command::OpenFolder => "open_folder",
            Command::CloneRepository => "clone_repository",
            Command::SaveFile => "save_file",
            Command::SaveFileAs => "save_file_as",
            Command::CloseTab => "close_tab",
            Command::NextTab => "next_tab",
            Command::PreviousTab => "previous_tab",
            Command::CloseWindow => "close_window",
            Command::OpenSettings => "open_settings",
            Command::EditSettings => "edit_settings",
            Command::ReloadSettings => "reload_settings",
            Command::ShowFolderPanel => "show_folder_panel",
            Command::ShowGitPanel => "show_git_panel",
            Command::ToggleTerminal => "toggle_terminal",
            Command::ShowDebugPanel => "show_debug_panel",
            Command::ToggleVimMode => "toggle_vim_mode",
            Command::ToggleFold => "toggle_fold",
            Command::Commit => "commit",
            Command::StageAll => "stage_all",
            Command::Pull => "pull",
            Command::Push => "push",
            Command::Fetch => "fetch",
            Command::TerminalCopy => "terminal_copy",
            Command::TerminalPaste => "terminal_paste",
        })
    }

    /// The keys the command is bound to by default, on macOS when `mac`
    /// holds (see [`default_keys_of`]).
    pub fn default_keys(self, mac: bool) -> (res: Vec<String>)
        ensures
            texts(res@) == default_keys_of(self, mac),
    {
        let v = match self {
            Command::NewFile => vec![chord(mac, "-n")],
            Command::OpenFile => vec![chord(mac, "-o")],
            Command::OpenFolder => vec![chords(mac, "-k ", "-o")],
            Command::CloneRepository => vec![],
            Command::SaveFile => vec![chord(mac, "-s")],
            Command::SaveFileAs => vec![chord(mac, "-shift-s")],
            Command::CloseTab => vec![chord(mac, "-w")],
            Command::NextTab => vec![String::from_str("ctrl-tab"), String::from_str("ctrl-pagedown")],
            Command::PreviousTab => vec![String::from_str("ctrl-shift-tab"), String::from_str("ctrl-pageup")],
            Command::CloseWindow => vec![chord(mac, "-shift-w")],
            Command::OpenSettings => vec![chord(mac, "-,")],
            Command::EditSettings => vec![],
            Command::ReloadSettings => vec![],
            Command::ShowFolderPanel => vec![chord(mac, "-shift-e")],
            Command::ShowGitPanel => vec![chord(mac, "-shift-g")],
            Command::ToggleTerminal => vec![String::from_str("ctrl-`")],
            Command::ShowDebugPanel => vec![chord(mac, "-shift-d")],
            Command::ToggleVimMode => vec![],
            Command::ToggleFold => vec![chord(mac, "-shift-["), chords(mac, "-k ", "-l")],
            Command::Commit => vec![chord(mac, "-enter")],
            Command::StageAll => vec![chord(mac, "-shift-a")],
            Command::Pull => vec![chord(mac, "-shift-l")],
            Command::Push => vec![chord(mac, "-shift-k")],
            Command::Fetch => vec![chord(mac, "-shift-j")],
            Command::TerminalCopy => vec![String::from_str(if mac { "cmd-c" } else { "ctrl-shift-c" })],
            Command::TerminalPaste => vec![String::from_str(if mac { "cmd-v" } else { "ctrl-shift-v" })],
        };
        assert(texts(v@) =~= default_keys_of(self, mac));
        v
    }
}

/// The keys bound to a command: one key, or a list of them.
#[derive(Clone, Debug, PartialEq)]
pub enum Keys {
    One(String),
    Many(Vec<String>),
}

/// The keys as a list of texts.
pub open spec fn keys_view(k: Keys) -> Seq<Seq<char>> {
    match k {
        Keys::One(s) => seq![s@],
        Keys::Many(v) => texts(v@),
    }
}

impl Keys {
    /// The keys, one by one.
    pub fn iter(&self) -> (res: Vec<&str>)
        ensures
            res@.len() == keys_view(*self).len(),
            forall|i: int| 0 <= i < res@.len() ==> (#[trigger] res@[i])@ == keys_view(*self)[i],
    {
        match self {
            Keys::One(key) => {
                let v = vec![key.as_str()];
                v
            },
            Keys::Many(keys) => {
                let mut v: Vec<&str> = Vec::new();
                let mut i: usize = 0;
                while i < keys.len()
                    invariant
                        i <= keys@.len(),
                        v@.len() == i,
                        forall|j: int| 0 <= j < i ==> (#[trigger] v@[j])@ == keys@[j]@,
                    decreases keys.len() - i,
                {
                    v.push(keys[i].as_str());
                    i = i + 1;
                }
                v
            },
        }
    }

    /// A single key as [`Keys::One`], any other number as [`Keys::Many`].
    pub fn from_list(keys: Vec<String>) -> (res: Keys)
        ensures
            keys_view(res) == texts(keys@),
            res is One <==> keys@.len() == 1,
    {
        if keys.len() == 1 {
            let mut keys = keys;
            let key = keys.remove(0);
            assert(texts(keys@) =~= Seq::<Seq<char>>::empty());
            let res = Keys::One(key);
            res
        } else {
            Keys::Many(keys)
        }
    }
}

/// The default binding of every command, in order of the commands, on
/// macOS when `mac` holds.
pub fn default_keybindings(mac: bool) -> (res: Vec<(Command, Keys)>)
    ensures
        res@.len() == all_commands().len(),
        forall|i: int|
            0 <= i < res@.len() ==> (#[trigger] res@[i]).0 == all_commands()[i] && keys_view(res@[i].1)
                == default_keys_of(all_commands()[i], mac) && (res@[i].1 is One <==> default_keys_of(
                all_commands()[i],
                mac,
            ).len() == 1),
{
    let commands = Command::all();
    let mut out: Vec<(Command, Keys)> = Vec::new();
    let mut i: usize = 0;
    while i < commands.len()
        invariant
            commands@ == all_commands(),
            i <= commands@.len(),
            out@.len() == i,
            forall|j: int|
                0 <= j < i ==> (#[trigger] out@[j]).0 == all_commands()[j] && keys_view(out@[j].1)
                    == default_keys_of(all_commands()[j], mac) && (out@[j].1 is One <==> default_keys_of(
                    all_commands()[j],
                    mac,
                ).len() == 1),
        decreases commands.len() - i,
    {
        let c = commands[i];
        let keys = c.default_keys(mac);
        out.push((c, Keys::from_list(keys)));
        i = i + 1;
    }
    out
}

/// The keys configured for a command: those of its first entry, if any.
pub open spec fn configured_keys(kb: Seq<(Command, Keys)>, c: Command, n: int) -> Option<Keys>
    decreases n,
{
    if n <= 0 {
        None
    } else {
        match configured_keys(kb, c, n - 1) {
            Some(k) => Some(k),
            None => if kb[n - 1].0 == c {
                Some(kb[n - 1].1)
            } else {
                None
            },
        }
    }
}

/// The keys of a command: those configured for it, else its defaults.
pub open spec fn keys_for(kb: Seq<(Command, Keys)>, c: Command, mac: bool) -> Seq<Seq<char>> {
    match configured_keys(kb, c, kb.len() as int) {
        Some(k) => keys_view(k),
        None => default_keys_of(c, mac),
    }
}

/// The first `n` keys that are not blank.
pub open spec fn non_blank(keys: Seq<Seq<char>>, n: int) -> Seq<Seq<char>>
    decreases n,
{
    if n <= 0 {
        Seq::empty()
    } else if crate::git_commands::trim_chars(keys[n - 1]).len() == 0 {
        non_blank(keys, n - 1)
    } else {
        non_blank(keys, n - 1).push(keys[n - 1])
    }
}

/// The bindings of the first `n` commands, in order: each command with
/// each of its keys that is not blank.
pub open spec fn bindings_of(kb: Seq<(Command, Keys)>, mac: bool, n: int) -> Seq<(Command, Seq<char>)>
    decreases n,
{
    if n <= 0 {
        Seq::empty()
    } else {
        let c = all_commands()[n - 1];
        let keys = keys_for(kb, c, mac);
        bindings_of(kb, mac, n - 1) + non_blank(keys, keys.len() as int).map_values(
            |k: Seq<char>| (c, k),
        )
    }
}

/// Pairs of a command and a key, with the key as text.
pub open spec fn binding_views(v: Seq<(Command, String)>) -> Seq<(Command, Seq<char>)> {
    Seq::new(v.len(), |i: int| (v[i].0, v[i].1@))
}

fn configured_for(kb: &Vec<(Command, Keys)>, c: Command) -> (res: Option<&Keys>)
    ensures
        match configured_keys(kb@, c, kb@.len() as int) {
            Some(k) => res matches Some(r) && *r == k,
            None => res is None,
        },
{
    let mut i: usize = 0;
    while i < kb.len()
        invariant
            i <= kb@.len(),
            configured_keys(kb@, c, i as int) is None,
        decreases kb@.len() - i,
    {
        if kb[i].0 == c {
            proof {
                lemma_configured_stays(kb@, c, i as int + 1, kb@.len() as int);
            }
            return Some(&kb[i].1);
        }
        i = i + 1;
    }
    None
}

proof fn lemma_configured_stays(kb: Seq<(Command, Keys)>, c: Command, m: int, n: int)
    requires
        m <= n,
        configured_keys(kb, c, m) is Some,
    ensures
        configured_keys(kb, c, n) == configured_keys(kb, c, m),
    decreases n - m,
{
    if m < n {
        lemma_configured_stays(kb, c, m, n - 1);
    }
}

/// The key bindings to make: for every command, in order, each of its
/// keys (those configured for it, else its defaults on macOS when `mac`)
/// that is not blank.
pub fn bindings(kb: &Vec<(Command, Keys)>, mac: bool) -> (res: Vec<(Command, String)>)
    ensures
        binding_views(res@) == bindings_of(kb@, mac, all_commands().len() as int),
{
    let commands = Command::all();
    let mut out: Vec<(Command, String)> = Vec::new();
    let mut i: usize = 0;
    while i < commands.len()
        invariant
            commands@ == all_commands(),
            i <= commands@.len(),
            binding_views(out@) == bindings_of(kb@, mac, i as int),
        decreases commands.len() - i,
    {
        let c = commands[i];
        let keys: Vec<String> = match configured_for(kb, c) {
            Some(k) => {
                let listed = k.iter();
                let mut v: Vec<String> = Vec::new();
                let mut j: usize = 0;
                while j < listed.len()
                    invariant
                        j <= listed@.len(),
                        listed@.len() == keys_view(*k).len(),
                        forall|q: int| 0 <= q < listed@.len() ==> (#[trigger] listed@[q])@ == keys_view(*k)[q],
                        texts(v@) == keys_view(*k).take(j as int),
                    decreases listed@.len() - j,
                {
                    let ghost before = v@;
                    assert(texts(before).len() == j);
                    let key = String::from_str(listed[j]);
                    assert(key@ == keys_view(*k)[j as int]);
                    v.push(key);
                    assert(v@ == before.push(key));
                    j = j + 1;
                    assert(texts(v@) =~= keys_view(*k).take(j as int));
                }
                assert(keys_view(*k).take(j as int) =~= keys_view(*k));
                v
            },
            None => c.default_keys(mac),
        };
        proof {
            assert(texts(keys@) == keys_for(kb@, c, mac));
        }
        let ghost start = binding_views(out@);
        let mut j: usize = 0;
        while j < keys.len()
            invariant
                j <= keys@.len(),
                binding_views(out@) == start + non_blank(texts(keys@), j as int).map_values(
                    |k: Seq<char>| (c, k),
                ),
            decreases keys@.len() - j,
        {
            let t = crate::git_commands::trim(&crate::vim::engine::chars_of(keys[j].as_str()));
            proof {
                assert(texts(keys@)[j as int] == keys@[j as int]@);
            }
            if t.len() > 0 {
                let ghost before = binding_views(out@);
                out.push((c, keys[j].clone()));
                assert(binding_views(out@) =~= before.push((c, keys@[j as int]@)));
                assert(non_blank(texts(keys@), j + 1).map_values(|k: Seq<char>| (c, k)) =~= non_blank(
                    texts(keys@),
                    j as int,
                ).map_values(|k: Seq<char>| (c, k)).push((c, keys@[j as int]@)));
            }
            j = j + 1;
        }
        assert(binding_views(out@) =~= bindings_of(kb@, mac, i + 1));
        i = i + 1;
    }
    out
}

} // verus!
