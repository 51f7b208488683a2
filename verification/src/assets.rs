//! The application's own icons.

use vstd::prelude::*;

verus! {

/// Icons that the application ships besides those of its component library.
#[derive(Clone, Copy, Debug, PartialEq, Eq)]
pub enum AppIcon {
    Bug,
    CloudDownload,
    Files,
    GitBranch,
    File,
    FileIgnored,
    FileJavaScript,
    FileJson,
    FileLock,
    FileMarkdown,
    FileRust,
    FileToml,
    FileTypeScript,
}

/// The asset file name of each icon (without directory and `.svg`).
pub open spec fn icon_stem(icon: AppIcon) -> Seq<char> {
    match icon {
        AppIcon::Bug => "bug"@,
        AppIcon::CloudDownload => "cloud-download"@,
        AppIcon::Files => "files"@,
        AppIcon::GitBranch => "git-branch"@,
        AppIcon::File => "file"@,
        AppIcon::FileIgnored => "file-ignored"@,
        AppIcon::FileJavaScript => "file-javascript"@,
        AppIcon::FileJson => "file-json"@,
        AppIcon::FileLock => "file-lock"@,
        AppIcon::FileMarkdown => "file-markdown"@,
        AppIcon::FileRust => "file-rust"@,
        AppIcon::FileToml => "file-toml"@,
        AppIcon::FileTypeScript => "file-typescript"@,
    }
}

impl AppIcon {
    /// Every icon, in declaration order.
    pub fn all() -> (res: Vec<AppIcon>)
        ensures
            res@ == seq![
                AppIcon::Bug,
                AppIcon::CloudDownload,
                AppIcon::Files,
                AppIcon::GitBranch,
                AppIcon::File,
                AppIcon::FileIgnored,
                AppIcon::FileJavaScript,
                AppIcon::FileJson,
                AppIcon::FileLock,
                AppIcon::FileMarkdown,
                AppIcon::FileRust,
                AppIcon::FileToml,
                AppIcon::FileTypeScript,
            ],
    {
        vec![
            AppIcon::Bug,
            AppIcon::CloudDownload,
            AppIcon::Files,
            AppIcon::GitBranch,
            AppIcon::File,
            AppIcon::FileIgnored,
            AppIcon::FileJavaScript,
            AppIcon::FileJson,
            AppIcon::FileLock,
            AppIcon::FileMarkdown,
            AppIcon::FileRust,
            AppIcon::FileToml,
            AppIcon::FileTypeScript,
        ]
    }

    /// The asset path under which the icon is registered.
    pub fn path(self) -> (res: &'static str)
        ensures
            res@ == "icons/app/"@ + icon_stem(self) + ".svg"@,
    {
        proof {
            reveal_strlit("icons/app/");
            reveal_strlit(".svg");
        }
        match self {
            AppIcon::Bug => {
                proof { reveal_strlit("bug"); reveal_strlit("icons/app/bug.svg"); }
                "icons/app/bug.svg"
            },
            AppIcon::CloudDownload => {
                proof { reveal_strlit("cloud-download"); reveal_strlit("icons/app/cloud-download.svg"); }
                "icons/app/cloud-download.svg"
            },
            AppIcon::Files => {
                proof { reveal_strlit("files"); reveal_strlit("icons/app/files.svg"); }
                "icons/app/files.svg"
            },
            AppIcon::GitBranch => {
                proof { reveal_strlit("git-branch"); reveal_strlit("icons/app/git-branch.svg"); }
                "icons/app/git-branch.svg"
            },
            AppIcon::File => {
                proof { reveal_strlit("file"); reveal_strlit("icons/app/file.svg"); }
                "icons/app/file.svg"
            },
            AppIcon::FileIgnored => {
                proof { reveal_strlit("file-ignored"); reveal_strlit("icons/app/file-ignored.svg"); }
                "icons/app/file-ignored.svg"
            },
            AppIcon::FileJavaScript => {
                proof { reveal_strlit("file-javascript"); reveal_strlit("icons/app/file-javascript.svg"); }
                "icons/app/file-javascript.svg"
            },
            AppIcon::FileJson => {
                proof { reveal_strlit("file-json"); reveal_strlit("icons/app/file-json.svg"); }
                "icons/app/file-json.svg"
            },
            AppIcon::FileLock => {
                proof { reveal_strlit("file-lock"); reveal_strlit("icons/app/file-lock.svg"); }
                "icons/app/file-lock.svg"
            },
            AppIcon::FileMarkdown => {
                proof { reveal_strlit("file-markdown"); reveal_strlit("icons/app/file-markdown.svg"); }
                "icons/app/file-markdown.svg"
            },
            AppIcon::FileRust => {
                proof { reveal_strlit("file-rust"); reveal_strlit("icons/app/file-rust.svg"); }
                "icons/app/file-rust.svg"
            },
            AppIcon::FileToml => {
                proof { reveal_strlit("file-toml"); reveal_strlit("icons/app/file-toml.svg"); }
                "icons/app/file-toml.svg"
            },
            AppIcon::FileTypeScript => {
                proof { reveal_strlit("file-typescript"); reveal_strlit("icons/app/file-typescript.svg"); }
                "icons/app/file-typescript.svg"
            },
        }
    }
}

/// Every icon, in declaration order.
pub open spec fn all_icons() -> Seq<AppIcon> {
    seq![
        AppIcon::Bug,
        AppIcon::CloudDownload,
        AppIcon::Files,
        AppIcon::GitBranch,
        AppIcon::File,
        AppIcon::FileIgnored,
        AppIcon::FileJavaScript,
        AppIcon::FileJson,
        AppIcon::FileLock,
        AppIcon::FileMarkdown,
        AppIcon::FileRust,
        AppIcon::FileToml,
        AppIcon::FileTypeScript,
    ]
}

/// The asset path of an icon.
pub open spec fn icon_path(icon: AppIcon) -> Seq<char> {
    "icons/app/"@ + icon_stem(icon) + ".svg"@
}

/// The paths of the first `n` icons that start with `prefix`, in order.
pub open spec fn paths_under(prefix: Seq<char>, n: int) -> Seq<Seq<char>>
    decreases n,
{
    if n <= 0 {
        Seq::empty()
    } else {
        let p = icon_path(all_icons()[n - 1]);
        if prefix.len() <= p.len() && p.take(prefix.len() as int) == prefix {
            paths_under(prefix, n - 1).push(p)
        } else {
            paths_under(prefix, n - 1)
        }
    }
}

/// The texts of a list of string slices.
pub open spec fn str_views(v: Seq<&str>) -> Seq<Seq<char>> {
    Seq::new(v.len(), |i: int| v[i]@)
}

fn starts_with(s: &str, prefix: &str) -> (res: bool)
    ensures
        res == (prefix@.len() <= s@.len() && s@.take(prefix@.len() as int) == prefix@),
{
    let n = prefix.unicode_len();
    if n > s.unicode_len() {
        return false;
    }
    let r = crate::text::spells_chars(s, 0, n, prefix);
    assert(s@.subrange(0, n as int) =~= s@.take(n as int));
    r
}

/// The asset source of the application: its own icons, which it serves
/// before those of the component library.
pub struct Assets;

impl Assets {
    /// The icon of the application registered under `path`, if one is.
    pub fn icon(&self, path: &str) -> (res: Option<AppIcon>)
        ensures
            match res {
                Some(i) => all_icons().contains(i) && icon_path(i) == path@,
                None => forall|k: int| 0 <= k < all_icons().len() ==> icon_path(#[trigger] all_icons()[k]) != path@,
            },
    {
        let icons = AppIcon::all();
        let mut k: usize = 0;
        while k < icons.len()
            invariant
                icons@ == all_icons(),
                k <= icons@.len(),
                forall|j: int| 0 <= j < k ==> icon_path(#[trigger] all_icons()[j]) != path@,
            decreases icons@.len() - k,
        {
            let icon = icons[k];
            let p = icon.path();
            if starts_with(p, path) && p.unicode_len() == path.unicode_len() {
                assert(p@.take(path@.len() as int) =~= p@);
                assert(all_icons()[k as int] == icon);
                return Some(icon);
            }
            proof {
                assert(all_icons()[k as int] == icon);
                if p@ == path@ {
                    assert(p@.take(path@.len() as int) =~= p@);
                }
            }
            k = k + 1;
        }
        None
    }

    /// The paths of the application's icons that start with `prefix`, in
    /// order; the component library lists its own beside them.
    pub fn listed(&self, prefix: &str) -> (res: Vec<&'static str>)
        ensures
            str_views(res@) == paths_under(prefix@, all_icons().len() as int),
    {
        let icons = AppIcon::all();
        let mut out: Vec<&'static str> = Vec::new();
        let mut k: usize = 0;
        while k < icons.len()
            invariant
                icons@ == all_icons(),
                k <= icons@.len(),
                str_views(out@) == paths_under(prefix@, k as int),
            decreases icons@.len() - k,
        {
            let p = icons[k].path();
            if starts_with(p, prefix) {
                let ghost before = str_views(out@);
                out.push(p);
                assert(str_views(out@) =~= before.push(p@));
            }
            k = k + 1;
        }
        out
    }
}

} // verus!
