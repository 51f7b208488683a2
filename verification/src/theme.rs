//! The colors of the two themes and the fonts the editor prefers.

use vstd::prelude::*;

use crate::terminal::snapshot::{dark_ansi, Palette};

verus! {

/// A themable color of the interface.
#[derive(Clone, Copy, Debug, PartialEq, Eq, Structural, PartialOrd, Ord, Hash)]
pub enum Color {
    Background,
    Panel,
    Chrome,
    Elevated,
    Border,
    BorderStrong,
    Hover,
    ActiveRow,
    ActiveLine,
    Text,
    Muted,
    Subtle,
    Accent,
    Selection,
    Error,
    GitAdded,
    GitModified,
    GitUntracked,
    GitDeleted,
    GitConflicted,
    DiffAdded,
    DiffRemoved,
    DiffHunk,
}

/// Every themable color, in order.
pub open spec fn all_colors() -> Seq<Color> {
    seq![
        Color::Background,
        Color::Panel,
        Color::Chrome,
        Color::Elevated,
        Color::Border,
        Color::BorderStrong,
        Color::Hover,
        Color::ActiveRow,
        Color::ActiveLine,
        Color::Text,
        Color::Muted,
        Color::Subtle,
        Color::Accent,
        Color::Selection,
        Color::Error,
        Color::GitAdded,
        Color::GitModified,
        Color::GitUntracked,
        Color::GitDeleted,
        Color::GitConflicted,
        Color::DiffAdded,
        Color::DiffRemoved,
        Color::DiffHunk,
    ]
}

/// The default of a color, `0xRRGGBB`, in the dark and the light theme.
pub open spec fn color_defaults(c: Color) -> (u32, u32) {
    match c {
        Color::Background => (0x1b1c21, 0xffffff),
        Color::Panel => (0x16171b, 0xf6f7f9),
        Color::Chrome => (0x121317, 0xeef0f3),
        Color::Elevated => (0x222329, 0xffffff),
        Color::Border => (0x26282e, 0xe3e5ea),
        Color::BorderStrong => (0x33363d, 0xd3d6dc),
        Color::Hover => (0x23252b, 0xe8eaee),
        Color::ActiveRow => (0x243150, 0xdde7ff),
        Color::ActiveLine => (0x202127, 0xf5f7fb),
        Color::Text => (0xe3e5ea, 0x1d1f24),
        Color::Muted => (0x8b8f99, 0x676c78),
        Color::Subtle => (0x575b64, 0xa3a7b0),
        Color::Accent => (0x7c9cff, 0x3b6ef5),
        Color::Selection => (0x2d4270, 0xc7dbff),
        Color::Error => (0xf07575, 0xc9402f),
        Color::GitAdded => (0x73c991, 0x2f8a3f),
        Color::GitModified => (0x6fa8ff, 0x1a64d6),
        Color::GitUntracked => (0xe0776a, 0xc0392b),
        Color::GitDeleted => (0x868a93, 0x6c707e),
        Color::GitConflicted => (0xe8bd62, 0x9d6c00),
        Color::DiffAdded => (0x1f3a2b, 0xe3f6e5),
        Color::DiffRemoved => (0x42262a, 0xfde7e7),
        Color::DiffHunk => (0x1e2436, 0xeef3ff),
    }
}

impl Color {
    /// Every themable color, in order.
    pub fn all() -> (res: Vec<Color>)
        ensures
            res@ == all_colors(),
    {
        let v = vec![
            Color::Background,
            Color::Panel,
            Color::Chrome,
            Color::Elevated,
            Color::Border,
            Color::BorderStrong,
            Color::Hover,
            Color::ActiveRow,
            Color::ActiveLine,
            Color::Text,
            Color::Muted,
            Color::Subtle,
            Color::Accent,
            Color::Selection,
            Color::Error,
            Color::GitAdded,
            Color::GitModified,
            Color::GitUntracked,
            Color::GitDeleted,
            Color::GitConflicted,
            Color::DiffAdded,
            Color::DiffRemoved,
            Color::DiffHunk,
        ];
        assert(v@ =~= all_colors());
        v
    }

    /// The default of the color in the dark and the light theme.
    pub fn defaults(self) -> (res: (u32, u32))
        ensures
            res == color_defaults(self),
    {
        match self {
            Color::Background => (0x1b1c21, 0xffffff),
            Color::Panel => (0x16171b, 0xf6f7f9),
            Color::Chrome => (0x121317, 0xeef0f3),
            Color::Elevated => (0x222329, 0xffffff),
            Color::Border => (0x26282e, 0xe3e5ea),
            Color::BorderStrong => (0x33363d, 0xd3d6dc),
            Color::Hover => (0x23252b, 0xe8eaee),
            Color::ActiveRow => (0x243150, 0xdde7ff),
            Color::ActiveLine => (0x202127, 0xf5f7fb),
            Color::Text => (0xe3e5ea, 0x1d1f24),
            Color::Muted => (0x8b8f99, 0x676c78),
            Color::Subtle => (0x575b64, 0xa3a7b0),
            Color::Accent => (0x7c9cff, 0x3b6ef5),
            Color::Selection => (0x2d4270, 0xc7dbff),
            Color::Error => (0xf07575, 0xc9402f),
            Color::GitAdded => (0x73c991, 0x2f8a3f),
            Color::GitModified => (0x6fa8ff, 0x1a64d6),
            Color::GitUntracked => (0xe0776a, 0xc0392b),
            Color::GitDeleted => (0x868a93, 0x6c707e),
            Color::GitConflicted => (0xe8bd62, 0x9d6c00),
            Color::DiffAdded => (0x1f3a2b, 0xe3f6e5),
            Color::DiffRemoved => (0x42262a, 0xfde7e7),
            Color::DiffHunk => (0x1e2436, 0xeef3ff),
        }
    }
}

/// The monospace families the editor prefers, best first.
pub open spec fn preferred_mono() -> Seq<Seq<char>> {
    seq!["Cascadia Mono"@, "JetBrains Mono"@, "SF Mono"@, "Menlo"@, "DejaVu Sans Mono"@]
}

/// The first of `families` from index `i` on that is installed.
pub open spec fn first_installed(families: Seq<Seq<char>>, installed: Seq<String>, i: int) -> Option<Seq<char>>
    decreases families.len() - i,
{
    if i < 0 || i >= families.len() {
        None
    } else if exists|k: int| 0 <= k < installed.len() && installed[k]@ == families[i] {
        Some(families[i])
    } else {
        first_installed(families, installed, i + 1)
    }
}

fn installed_has(installed: &[String], family: &str) -> (res: bool)
    ensures
        res == exists|k: int| 0 <= k < installed@.len() && installed@[k]@ == family@,
{
    let mut k: usize = 0;
    while k < installed.len()
        invariant
            k <= installed@.len(),
            forall|j: int| 0 <= j < k ==> installed@[j]@ != family@,
        decreases installed.len() - k,
    {
        if crate::text::spells_chars(installed[k].as_str(), 0, installed[k].as_str().unicode_len(), family) {
            assert(installed@[k as int]@.subrange(0, installed@[k as int]@.len() as int) =~= installed@[k as int]@);
            return true;
        }
        assert(installed@[k as int]@.subrange(0, installed@[k as int]@.len() as int) =~= installed@[k as int]@);
        k = k + 1;
    }
    false
}

/// The monospace family the editor uses: the first preferred family that
/// is installed, else the platform's `fallback`.
pub fn mono_family(installed: &[String], fallback: &'static str) -> (res: &'static str)
    ensures
        res@ == match first_installed(preferred_mono(), installed@, 0) {
            Some(f) => f,
            None => fallback@,
        },
{
    let families: [&'static str; 5] = [
        "Cascadia Mono",
        "JetBrains Mono",
        "SF Mono",
        "Menlo",
        "DejaVu Sans Mono",
    ];
    let mut i: usize = 0;
    while i < 5
        invariant
            i <= 5,
            forall|j: int| 0 <= j < 5 ==> (#[trigger] families@[j])@ == preferred_mono()[j],
            first_installed(preferred_mono(), installed@, i as int) == first_installed(
                preferred_mono(),
                installed@,
                0,
            ),
        decreases 5 - i,
    {
        if installed_has(installed, families[i]) {
            return families[i];
        }
        i = i + 1;
    }
    fallback
}

/// The ANSI colors of the light theme.
pub open spec fn light_ansi() -> Seq<u32> {
    seq![
        0x383a42u32, 0xd13c3c, 0x3f8f3a, 0x9d6c00, 0x3574f0, 0xa626a4, 0x0e7d91, 0x9a9ca4,
        0x6c707e, 0xe45649, 0x50a14f, 0xc18401, 0x4078f2, 0xb750b5, 0x0184bc, 0x383a42,
    ]
}

/// The terminal's colors for the current theme: its text, background and
/// accent colors, and the dark or the light ANSI colors.
pub fn terminal_palette(dark: bool, text: u32, background: u32, accent: u32) -> (res: Palette)
    ensures
        res.foreground == text,
        res.background == background,
        res.cursor == accent,
        res.ansi@ == if dark {
            dark_ansi()
        } else {
            light_ansi()
        },
{
    let defaults = Palette::default();
    let ansi = if dark {
        defaults.ansi
    } else {
        let a = [
            0x383a42, 0xd13c3c, 0x3f8f3a, 0x9d6c00, 0x3574f0, 0xa626a4, 0x0e7d91, 0x9a9ca4,
            0x6c707e, 0xe45649, 0x50a14f, 0xc18401, 0x4078f2, 0xb750b5, 0x0184bc, 0x383a42,
        ];
        assert(a@ =~= light_ansi());
        a
    };
    Palette { foreground: text, background, cursor: accent, ansi }
}

} // verus!
