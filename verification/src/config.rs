//! The configuration: which directories to watch.

use crate::error::{ErrorView, TuxDriveError};
use vstd::prelude::*;
use vstd::string::{StrSliceExecFns, StringExecFns, StringSliceAdditionalSpecFns};
use vstd::utf8::encode_utf8;

verus! {

/// Whether a path, as text, is absolute: its first byte is a slash.
pub open spec fn spec_is_absolute(path: Seq<char>) -> bool {
    encode_utf8(path).len() > 0 && encode_utf8(path)[0] == 47u8
}

/// Whether a path, as text, is absolute.
pub fn is_absolute(path: &str) -> (yes: bool)
    ensures
        yes == spec_is_absolute(path@),
{
    let bytes = path.as_bytes();
    bytes.len() > 0 && bytes[0] == 47u8
}

/// One directory to watch.
#[derive(Debug, PartialEq, Eq)]
pub struct PathConfig {
    path: String,
    recursive: bool,
}

/// What a `PathConfig` says.
pub struct PathConfigView {
    pub path: Seq<char>,
    pub recursive: bool,
}

impl View for PathConfig {
    type V = PathConfigView;

    closed spec fn view(&self) -> PathConfigView {
        PathConfigView { path: self.path@, recursive: self.recursive }
    }
}

impl PathConfig {
    pub fn new(path: String, recursive: bool) -> (entry: Self)
        ensures
            entry@ == (PathConfigView { path: path@, recursive }),
    {
        Self { path, recursive }
    }

    /// The directory's path.
    pub fn path(&self) -> (path: &str)
        ensures
            path@ == self@.path,
    {
        self.path.as_str()
    }

    /// Whether all below the directory is watched too.
    pub fn recursive(&self) -> (recursive: bool)
        ensures
            recursive == self@.recursive,
    {
        self.recursive
    }
}

/// The directories to watch. All their paths are absolute.
#[derive(Debug, PartialEq, Eq)]
pub struct Config(Vec<PathConfig>);

/// The views of some entries.
pub open spec fn entries_view(entries: Seq<PathConfig>) -> Seq<PathConfigView> {
    Seq::new(entries.len(), |i: int| entries[i]@)
}

/// The index of the first entry, from `from` on, whose path is not
/// absolute.
pub open spec fn first_relative(entries: Seq<PathConfigView>, from: int) -> Option<int>
    decreases entries.len() - from,
{
    if from < 0 || from >= entries.len() {
        None
    } else if !spec_is_absolute(entries[from].path) {
        Some(from)
    } else {
        first_relative(entries, from + 1)
    }
}

impl View for Config {
    type V = Seq<PathConfigView>;

    closed spec fn view(&self) -> Seq<PathConfigView> {
        entries_view(self.0@)
    }
}

impl Config {
    /// Every path is absolute.
    pub open spec fn wf(&self) -> bool {
        first_relative(self@, 0) is None
    }

    /// The configuration that holds `entries`, if all their paths are
    /// absolute. Else the first path that is not is refused with
    /// `PathNotAbs`.
    pub fn from_entries(entries: Vec<PathConfig>) -> (r: Result<Self, TuxDriveError>)
        ensures
            match first_relative(entries_view(entries@), 0) {
                None => r matches Ok(config) && config@ == entries_view(entries@) && config.wf(),
                Some(i) => r matches Err(e) && e@ == ErrorView::PathNotAbs(entries@[i]@.path),
            },
    {
        let mut i: usize = 0;
        while i < entries.len()
            invariant
                i <= entries@.len(),
                first_relative(entries_view(entries@), 0) == first_relative(
                    entries_view(entries@),
                    i as int,
                ),
            decreases entries@.len() - i,
        {
            if !is_absolute(entries[i].path()) {
                return Err(TuxDriveError::PathNotAbs(entries[i].path.clone()));
            }
            i += 1;
        }
        Ok(Config(entries))
    }

    /// The directories to watch.
    pub fn paths(&self) -> (paths: &Vec<PathConfig>)
        ensures
            entries_view(paths@) == self@,
    {
        &self.0
    }
}

/// The path of the entry `name` of the directory `dir`, as text: a slash
/// stands between the two unless `dir` is empty or ends in one.
pub open spec fn spec_child_path(dir: Seq<char>, name: Seq<char>) -> Seq<char> {
    if dir.len() == 0 || dir.last() == '/' {
        dir + name
    } else {
        dir + seq!['/'] + name
    }
}

/// The path of the entry `name` of the directory `dir`, as text.
pub fn child_path(dir: &str, name: &str) -> (path: String)
    ensures
        path@ == spec_child_path(dir@, name@),
{
    let n: usize = dir.unicode_len();
    let mut path = String::from_str(dir);
    if n > 0 && dir.get_char(n - 1) != '/' {
        proof {
            reveal_strlit("/");
            assert("/"@ =~= seq!['/']);
        }
        path.append("/");
    }
    path.append(name);
    path
}

/// The places where the configuration file is looked for, in this order:
/// `.tuxdriver.json` in the home directory, `.tuxdriver.json` in the
/// configuration directory, `.config/tuxdriver/tuxdriver.json` in the
/// configuration directory, and `tuxdriver.json` in the working directory.
pub open spec fn spec_search_paths(home_dir: Seq<char>, config_dir: Seq<char>) -> Seq<Seq<char>> {
    seq![
        spec_child_path(home_dir, ".tuxdriver.json"@),
        spec_child_path(config_dir, ".tuxdriver.json"@),
        spec_child_path(
            spec_child_path(spec_child_path(config_dir, ".config"@), "tuxdriver"@),
            "tuxdriver.json"@,
        ),
        "./tuxdriver.json"@,
    ]
}

/// The index of the first place, from `from` on, at which a file was
/// found.
pub open spec fn first_found(is_file: Seq<bool>, from: int) -> Option<int>
    decreases is_file.len() - from,
{
    if from < 0 || from >= is_file.len() {
        None
    } else if is_file[from] {
        Some(from)
    } else {
        first_found(is_file, from + 1)
    }
}

impl Config {
    /// The places where the configuration file is looked for, in the order
    /// of the search. Without a home directory the search fails with
    /// `HomeDirNotFound`, without a configuration directory with
    /// `ConfigDirNotFound`.
    pub fn search_paths(home_dir: Option<&str>, config_dir: Option<&str>) -> (r: Result<
        Vec<String>,
        TuxDriveError,
    >)
        ensures
            match (home_dir, config_dir) {
                (None, _) => r matches Err(e) && e@ == ErrorView::HomeDirNotFound,
                (Some(_), None) => r matches Err(e) && e@ == ErrorView::ConfigDirNotFound,
                (Some(home), Some(config)) => r matches Ok(places) && places@.len() == 4
                    && forall|i: int|
                    0 <= i < 4 ==> (#[trigger] places@[i])@ == spec_search_paths(home@, config@)[i],
            },
    {
        let home_dir = match home_dir {
            Some(dir) => dir,
            None => {
                return Err(TuxDriveError::HomeDirNotFound);
            },
        };
        let config_dir = match config_dir {
            Some(dir) => dir,
            None => {
                return Err(TuxDriveError::ConfigDirNotFound);
            },
        };
        let mut places: Vec<String> = Vec::new();
        places.push(child_path(home_dir, ".tuxdriver.json"));
        places.push(child_path(config_dir, ".tuxdriver.json"));
        let dot_config = child_path(config_dir, ".config");
        let own_dir = child_path(dot_config.as_str(), "tuxdriver");
        places.push(child_path(own_dir.as_str(), "tuxdriver.json"));
        places.push(String::from_str("./tuxdriver.json"));
        Ok(places)
    }

    /// The configuration that was parsed, if the parsing gave entries and
    /// all their paths are absolute. A failure to parse, with its message,
    /// becomes `DeserializeFailed`.
    pub fn from_parsed(parsed: Result<Vec<PathConfig>, String>) -> (r: Result<Self, TuxDriveError>)
        ensures
            match parsed {
                Err(message) => r matches Err(e) && e@ == ErrorView::DeserializeFailed(message@),
                Ok(entries) => match first_relative(entries_view(entries@), 0) {
                    None => r matches Ok(config) && config@ == entries_view(entries@)
                        && config.wf(),
                    Some(i) => r matches Err(e) && e@ == ErrorView::PathNotAbs(entries@[i]@.path),
                },
            },
    {
        match parsed {
            Err(message) => Err(TuxDriveError::DeserializeFailed(message)),
            Ok(entries) => Self::from_entries(entries),
        }
    }

    /// Picks the configuration file: the first place at which a file was
    /// found, where `is_file` says of each place, in the order of the
    /// search, whether one was. Fails with `ConfigFileNotFound` if none was.
    pub fn pick_file(is_file: &Vec<bool>) -> (r: Result<usize, TuxDriveError>)
        ensures
            match first_found(is_file@, 0) {
                Some(i) => r == Ok::<usize, TuxDriveError>(i as usize) && i < is_file@.len(),
                None => r matches Err(e) && e@ == ErrorView::ConfigFileNotFound,
            },
    {
        let mut i: usize = 0;
        while i < is_file.len()
            invariant
                i <= is_file@.len(),
                first_found(is_file@, 0) == first_found(is_file@, i as int),
            decreases is_file@.len() - i,
        {
            if is_file[i] {
                return Ok(i);
            }
            i += 1;
        }
        Err(TuxDriveError::ConfigFileNotFound)
    }
}

} // verus!
