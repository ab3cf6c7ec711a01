//! Settings: server address, document roots, file types and scan options.
use crate::text::{
    ascii_lower_chars, ascii_lower_seq, chars_eq_ignore_ascii_case, chars_of, contains_char,
    eq_ignore_ascii_case, views,
};
use crate::os_path::{join_path, path_join, PathStyle};
use std::path::PathBuf;
use vstd::prelude::*;

verus! {

/// HTTP server settings.
#[derive(Debug, Clone)]
pub struct ServerSettings {
    pub host: String,
    pub port: u16,
    pub open_browser: bool,
}

/// One document root.
#[derive(Debug, Clone)]
pub struct RootSettings {
    /// Display name, also the URL prefix (`/r/<name>/...`).
    pub name: String,
    pub path: String,
    /// Directory or file names skipped while scanning.
    pub exclude: Vec<String>,
}

/// All settings.
#[derive(Debug, Clone)]
pub struct Settings {
    pub server: ServerSettings,
    pub roots: Vec<RootSettings>,
    pub include_extensions: Vec<String>,
    pub respect_gitignore: bool,
    pub watch: bool,
    pub max_depth: usize,
    /// Where the settings were read from (used when saving).
    pub config_path: Option<PathBuf>,
}

/// Why settings were rejected.
#[derive(Debug)]
pub enum ConfigError {
    /// A root has an empty name.
    EmptyName,
    /// A root's name holds `/` or `\`.
    InvalidName(String),
    /// Two roots share this name.
    DuplicateName(String),
}

/// The mathematical value of a `ConfigError`.
pub enum ConfigErrorModel {
    EmptyName,
    InvalidName(Seq<char>),
    DuplicateName(Seq<char>),
}

impl View for ConfigError {
    type V = ConfigErrorModel;

    open spec fn view(&self) -> ConfigErrorModel {
        match self {
            ConfigError::EmptyName => ConfigErrorModel::EmptyName,
            ConfigError::InvalidName(n) => ConfigErrorModel::InvalidName(n@),
            ConfigError::DuplicateName(n) => ConfigErrorModel::DuplicateName(n@),
        }
    }
}

impl ConfigError {
    /// A message for the user.
    pub fn message(&self) -> (m: String)
        ensures
            m@ == match self@ {
                ConfigErrorModel::EmptyName => "roots[].name は必須です"@,
                ConfigErrorModel::InvalidName(n) => "roots[].name に / は使えません: "@ + n,
                ConfigErrorModel::DuplicateName(n) => "roots[].name が重複: "@ + n,
            },
    {
        match self {
            ConfigError::EmptyName => "roots[].name は必須です".to_owned(),
            ConfigError::InvalidName(n) => {
                let mut m = "roots[].name に / は使えません: ".to_owned();
                m.append(n.as_str());
                m
            },
            ConfigError::DuplicateName(n) => {
                let mut m = "roots[].name が重複: ".to_owned();
                m.append(n.as_str());
                m
            },
        }
    }
}

impl Default for ServerSettings {
    fn default() -> (s: ServerSettings)
        ensures
            s.host@ == "127.0.0.1"@,
            s.port == 8765,
            !s.open_browser,
    {
        ServerSettings { host: "127.0.0.1".to_owned(), port: 8765, open_browser: false }
    }
}

/// The document extensions scanned by default.
pub open spec fn default_extensions() -> Seq<Seq<char>> {
    seq!["html"@, "htm"@, "md"@, "markdown"@, "mmd"@, "mermaid"@]
}

impl Default for Settings {
    fn default() -> (s: Settings)
        ensures
            s.server.host@ == "127.0.0.1"@,
            s.server.port == 8765,
            !s.server.open_browser,
            s.roots@.len() == 0,
            views(s.include_extensions@) == default_extensions(),
            s.respect_gitignore,
            s.watch,
            s.max_depth == 20,
            s.config_path is None,
    {
        let mut exts: Vec<String> = Vec::new();
        exts.push("html".to_owned());
        exts.push("htm".to_owned());
        exts.push("md".to_owned());
        exts.push("markdown".to_owned());
        exts.push("mmd".to_owned());
        exts.push("mermaid".to_owned());
        assert(views(exts@) =~= default_extensions());
        Settings {
            server: ServerSettings::default(),
            roots: Vec::new(),
            include_extensions: exts,
            respect_gitignore: true,
            watch: true,
            max_depth: 20,
            config_path: None,
        }
    }
}

/// The names of the roots.
pub open spec fn root_names(roots: Seq<RootSettings>) -> Seq<Seq<char>> {
    roots.map_values(|r: RootSettings| r.name@)
}

/// What is wrong with the `i`-th name, given the names before it.
pub open spec fn name_error(names: Seq<Seq<char>>, i: int) -> Option<ConfigErrorModel> {
    let n = names[i];
    if n.len() == 0 {
        Some(ConfigErrorModel::EmptyName)
    } else if n.contains('/') || n.contains('\\') {
        Some(ConfigErrorModel::InvalidName(n))
    } else if names.take(i).contains(n) {
        Some(ConfigErrorModel::DuplicateName(n))
    } else {
        None
    }
}

/// The error of the first name (from index `i` on) that is wrong, if any.
pub open spec fn first_name_error(names: Seq<Seq<char>>, i: int) -> Option<ConfigErrorModel>
    decreases names.len() - i,
{
    if i < 0 || i >= names.len() {
        None
    } else if name_error(names, i) is Some {
        name_error(names, i)
    } else {
        first_name_error(names, i + 1)
    }
}

/// The places searched for the settings file, in order: the explicit path,
/// `config/setting.yaml` and `setting.yaml` under the working directory,
/// the same two next to the executable, then `local_docserver/setting.yaml`
/// under the OS configuration directory.
pub open spec fn config_candidates_of(
    explicit: Option<Seq<char>>,
    cwd: Option<Seq<char>>,
    exe_dir: Option<Seq<char>>,
    config_dir: Option<Seq<char>>,
) -> Seq<Seq<char>> {
    let a = match explicit {
        Some(p) => seq![p],
        None => Seq::<Seq<char>>::empty(),
    };
    let b = match cwd {
        Some(d) => seq![path_join(d, "config/setting.yaml"@), path_join(d, "setting.yaml"@)],
        None => Seq::<Seq<char>>::empty(),
    };
    let c = match exe_dir {
        Some(d) => seq![path_join(d, "config/setting.yaml"@), path_join(d, "setting.yaml"@)],
        None => Seq::<Seq<char>>::empty(),
    };
    let d = match config_dir {
        Some(d) => seq![path_join(d, "local_docserver/setting.yaml"@)],
        None => Seq::<Seq<char>>::empty(),
    };
    a + b + c + d
}

/// The places searched for the settings file, in order, joined by the path
/// rules of `style` (for Unix exactly as `config_candidates_of` states).
pub fn config_candidates(
    style: PathStyle,
    explicit: Option<&str>,
    cwd: Option<&str>,
    exe_dir: Option<&str>,
    config_dir: Option<&str>,
) -> (r: Vec<String>)
    ensures
        r@.len() == config_candidates_of(
            match explicit {
                Some(p) => Some(p@),
                None => None,
            },
            match cwd {
                Some(p) => Some(p@),
                None => None,
            },
            match exe_dir {
                Some(p) => Some(p@),
                None => None,
            },
            match config_dir {
                Some(p) => Some(p@),
                None => None,
            },
        ).len(),
        explicit matches Some(p) ==> r@[0]@ == p@,
        style == PathStyle::Unix ==> views(r@) == config_candidates_of(
            match explicit {
                Some(p) => Some(p@),
                None => None,
            },
            match cwd {
                Some(p) => Some(p@),
                None => None,
            },
            match exe_dir {
                Some(p) => Some(p@),
                None => None,
            },
            match config_dir {
                Some(p) => Some(p@),
                None => None,
            },
        ),
{
    let mut r: Vec<String> = Vec::new();
    match explicit {
        Some(p) => r.push(p.to_owned()),
        None => {},
    }
    match cwd {
        Some(d) => {
            r.push(join_path(style, d, "config/setting.yaml"));
            r.push(join_path(style, d, "setting.yaml"));
        },
        None => {},
    }
    match exe_dir {
        Some(d) => {
            r.push(join_path(style, d, "config/setting.yaml"));
            r.push(join_path(style, d, "setting.yaml"));
        },
        None => {},
    }
    match config_dir {
        Some(d) => r.push(join_path(style, d, "local_docserver/setting.yaml")),
        None => {},
    }
    proof {
        let ex = match explicit {
            Some(p) => Some(p@),
            None => None,
        };
        let cw = match cwd {
            Some(p) => Some(p@),
            None => None,
        };
        let xd = match exe_dir {
            Some(p) => Some(p@),
            None => None,
        };
        let cd = match config_dir {
            Some(p) => Some(p@),
            None => None,
        };
        if style == PathStyle::Unix {
            assert(views(r@) =~= config_candidates_of(ex, cw, xd, cd));
        }
        assert(r@.len() == config_candidates_of(ex, cw, xd, cd).len());
    }
    r
}

impl Settings {
    /// Checks that every root has a name, without `/` or `\`, and that no two
    /// roots share a name. The first root that breaks a rule decides the error.
    pub fn validate(&self) -> (r: Result<(), ConfigError>)
        ensures
            match r {
                Ok(()) => first_name_error(root_names(self.roots@), 0) is None,
                Err(e) => first_name_error(root_names(self.roots@), 0) == Some(e@),
            },
    {
        let ghost names = root_names(self.roots@);
        let mut i: usize = 0;
        while i < self.roots.len()
            invariant
                i <= self.roots@.len(),
                names == root_names(self.roots@),
                first_name_error(names, 0) == first_name_error(names, i as int),
            decreases self.roots@.len() - i,
        {
            let name = &self.roots[i].name;
            let c = chars_of(name.as_str());
            if c.len() == 0 {
                return Err(ConfigError::EmptyName);
            }
            if contains_char(c.as_slice(), '/') || contains_char(c.as_slice(), '\\') {
                return Err(ConfigError::InvalidName(name.clone()));
            }
            let mut j: usize = 0;
            while j < i
                invariant
                    j <= i < self.roots@.len(),
                    names == root_names(self.roots@),
                    *name == self.roots@[i as int].name,
                    first_name_error(names, 0) == first_name_error(names, i as int),
                    name@.len() > 0,
                    !name@.contains('/') && !name@.contains('\\'),
                    forall|k: int| 0 <= k < j ==> names[k] != names[i as int],
                decreases i - j,
            {
                assert(names[j as int] == self.roots@[j as int].name@);
                assert(names[i as int] == self.roots@[i as int].name@);
                if self.roots[j].name == *name {
                    assert(names.take(i as int)[j as int] == names[i as int]);
                    assert(names.take(i as int).contains(names[i as int]));
                    assert(name_error(names, i as int) == Some(ConfigErrorModel::DuplicateName(name@)));
                    return Err(ConfigError::DuplicateName(name.clone()));
                }
                j = j + 1;
            }
            assert(!names.take(i as int).contains(names[i as int])) by {
                if names.take(i as int).contains(names[i as int]) {
                    let k = choose|k: int| 0 <= k < i && names.take(i as int)[k] == names[i as int];
                    assert(names[k] == names[i as int]);
                }
            }
            i = i + 1;
        }
        Ok(())
    }

    /// Whether files with extension `ext` are scanned (ASCII case ignored).
    pub fn ext_allowed(&self, ext: &str) -> (r: bool)
        ensures
            r == exists|i: int|
                0 <= i < self.include_extensions@.len() && eq_ignore_ascii_case(
                    #[trigger] self.include_extensions@[i]@,
                    ascii_lower_seq(ext@),
                ),
    {
        let e = ascii_lower_chars(chars_of(ext).as_slice());
        let mut i: usize = 0;
        while i < self.include_extensions.len()
            invariant
                i <= self.include_extensions@.len(),
                e@ == ascii_lower_seq(ext@),
                forall|k: int|
                    0 <= k < i ==> !eq_ignore_ascii_case(
                        #[trigger] self.include_extensions@[k]@,
                        ascii_lower_seq(ext@),
                    ),
            decreases self.include_extensions@.len() - i,
        {
            let x = chars_of(self.include_extensions[i].as_str());
            if chars_eq_ignore_ascii_case(x.as_slice(), e.as_slice()) {
                return true;
            }
            i = i + 1;
        }
        false
    }

    /// Makes each root's path absolute against `base` (the settings file's
    /// directory): each path is joined onto `base` by the rules of `style`,
    /// which keep an absolute path as it is. For Unix the result is exactly
    /// `path_join`; for Windows it is what `Path::join` gives.
    pub fn resolve_paths(&mut self, base: &str, style: PathStyle)
        ensures
            final(self).roots@.len() == old(self).roots@.len(),
            forall|i: int|
                0 <= i < final(self).roots@.len() ==> {
                    &&& style == PathStyle::Unix ==> (#[trigger] final(self).roots@[i]).path@
                        == path_join(base@, old(self).roots@[i].path@)
                    &&& final(self).roots@[i].name@ == old(self).roots@[i].name@
                    &&& views(final(self).roots@[i].exclude@) == views(old(self).roots@[i].exclude@)
                },
            final(self).server == old(self).server,
            views(final(self).include_extensions@) == views(old(self).include_extensions@),
            final(self).respect_gitignore == old(self).respect_gitignore,
            final(self).watch == old(self).watch,
            final(self).max_depth == old(self).max_depth,
            final(self).config_path == old(self).config_path,
    {
        let mut roots: Vec<RootSettings> = Vec::new();
        std::mem::swap(&mut roots, &mut self.roots);
        let ghost old_roots = roots@;
        let mut out: Vec<RootSettings> = Vec::new();
        let mut i: usize = 0;
        while i < roots.len()
            invariant
                i <= roots@.len(),
                roots@ == old_roots,
                out@.len() == i,
                forall|k: int|
                    0 <= k < i ==> {
                        &&& style == PathStyle::Unix ==> (#[trigger] out@[k]).path@ == path_join(
                            base@,
                            old_roots[k].path@,
                        )
                        &&& out@[k].name@ == old_roots[k].name@
                        &&& views(out@[k].exclude@) == views(old_roots[k].exclude@)
                    },
            decreases roots@.len() - i,
        {
            let r = &roots[i];
            let path = join_path(style, base, r.path.as_str());
            let exclude = crate::index::copy_strings(&r.exclude);
            out.push(RootSettings { name: r.name.clone(), path, exclude });
            i = i + 1;
        }
        self.roots = out;
    }

    /// Completes settings read from the file at `config_path` (whose directory
    /// is `base_dir`): records the path, resolves the roots' paths against
    /// `base_dir` by the rules of `style`, and validates.
    pub fn finish_load(&mut self, config_path: PathBuf, base_dir: &str, style: PathStyle) -> (r:
        Result<(), ConfigError>)
        ensures
            final(self).config_path == Some(config_path),
            final(self).roots@.len() == old(self).roots@.len(),
            forall|i: int|
                0 <= i < final(self).roots@.len() ==> style == PathStyle::Unix ==> (
                #[trigger] final(self).roots@[i]).path@ == path_join(
                    base_dir@,
                    old(self).roots@[i].path@,
                ),
            root_names(final(self).roots@) == root_names(old(self).roots@),
            match r {
                Ok(()) => first_name_error(root_names(old(self).roots@), 0) is None,
                Err(e) => first_name_error(root_names(old(self).roots@), 0) == Some(e@),
            },
    {
        self.config_path = Some(config_path);
        self.resolve_paths(base_dir, style);
        assert(root_names(self.roots@) =~= root_names(old(self).roots@));
        self.validate()
    }

    /// Whether file watching runs: it is switched on and there is a root.
    pub fn watching(&self) -> (r: bool)
        ensures
            r == (self.watch && self.roots@.len() > 0),
    {
        self.watch && self.roots.len() > 0
    }

    /// The root named `name`, if any (the first one).
    pub fn root_named(&self, name: &str) -> (r: Option<&RootSettings>)
        ensures
            match r {
                Some(x) => exists|i: int|
                    0 <= i < self.roots@.len() && self.roots@[i] == *x && x.name@ == name@ && forall|
                        j: int,
                    | 0 <= j < i ==> #[trigger] self.roots@[j].name@ != name@,
                None => forall|j: int| 0 <= j < self.roots@.len() ==> #[trigger] self.roots@[j].name@ != name@,
            },
    {
        let mut i: usize = 0;
        while i < self.roots.len()
            invariant
                i <= self.roots@.len(),
                forall|j: int| 0 <= j < i ==> #[trigger] self.roots@[j].name@ != name@,
            decreases self.roots@.len() - i,
        {
            if self.roots[i].name.as_str().unicode_len() == name.unicode_len()
                && crate::text::chars_eq(
                chars_of(self.roots[i].name.as_str()).as_slice(),
                chars_of(name).as_slice(),
            ) {
                return Some(&self.roots[i]);
            }
            i = i + 1;
        }
        None
    }
}

} // verus!

verus! {

proof fn lemma_no_error_from(names: Seq<Seq<char>>, k: int, i: int)
    requires
        0 <= k <= i < names.len(),
        first_name_error(names, k) is None,
    ensures
        name_error(names, i) is None,
    decreases i - k,
{
    if k < i {
        lemma_no_error_from(names, k + 1, i);
    }
}

/// Settings pass validation exactly when every root name is non-empty,
/// holds neither `/` nor `\`, and no two roots share a name.
pub proof fn lemma_valid_names(names: Seq<Seq<char>>)
    ensures
        first_name_error(names, 0) is None <==> (forall|i: int|
            0 <= i < names.len() ==> (#[trigger] names[i]).len() > 0 && !names[i].contains('/')
                && !names[i].contains('\\')) && (forall|i: int, j: int|
            0 <= i < j < names.len() ==> #[trigger] names[i] != #[trigger] names[j]),
{
    let good = (forall|i: int|
        0 <= i < names.len() ==> (#[trigger] names[i]).len() > 0 && !names[i].contains('/')
            && !names[i].contains('\\')) && (forall|i: int, j: int|
        0 <= i < j < names.len() ==> #[trigger] names[i] != #[trigger] names[j]);
    if first_name_error(names, 0) is None {
        assert forall|i: int| 0 <= i < names.len() implies (#[trigger] names[i]).len() > 0
            && !names[i].contains('/') && !names[i].contains('\\') by {
            lemma_no_error_from(names, 0, i);
        }
        assert forall|i: int, j: int| 0 <= i < j < names.len() implies #[trigger] names[i]
            != #[trigger] names[j] by {
            lemma_no_error_from(names, 0, j);
            if names[i] == names[j] {
                assert(names.take(j)[i] == names[j]);
            }
        }
    }
    if good {
        lemma_all_good_from(names, 0);
    }
}

proof fn lemma_all_good_from(names: Seq<Seq<char>>, k: int)
    requires
        0 <= k,
        forall|i: int|
            0 <= i < names.len() ==> (#[trigger] names[i]).len() > 0 && !names[i].contains('/')
                && !names[i].contains('\\'),
        forall|i: int, j: int| 0 <= i < j < names.len() ==> #[trigger] names[i] != #[trigger] names[j],
    ensures
        first_name_error(names, k) is None,
    decreases names.len() - k,
{
    if k < names.len() {
        assert(!names.take(k).contains(names[k])) by {
            if names.take(k).contains(names[k]) {
                let m = choose|m: int| 0 <= m < k && names.take(k)[m] == names[k];
                assert(names[m] == names[k]);
            }
        }
        lemma_all_good_from(names, k + 1);
    }
}

/// Whether an extension is allowed does not depend on its ASCII case.
pub proof fn lemma_ext_allowed_ignores_case(exts: Seq<Seq<char>>, a: Seq<char>, b: Seq<char>)
    requires
        ascii_lower_seq(a) == ascii_lower_seq(b),
    ensures
        (exists|i: int| 0 <= i < exts.len() && eq_ignore_ascii_case(#[trigger] exts[i], ascii_lower_seq(a)))
            <==> (exists|i: int|
            0 <= i < exts.len() && eq_ignore_ascii_case(#[trigger] exts[i], ascii_lower_seq(b))),
{
}

} // verus!
