//! What the command-line front end decides before it hands over to the
//! runtime: which command a name selects, which folder is the project root,
//! and how a path argument is resolved against a folder.
//!
//! Paths are plain text with `/` as the separator.

use vstd::prelude::*;
use vstd::string::*;

verus! {

/// A path is absolute when it starts at the root, that is with `/`.
pub open spec fn is_absolute(path: Seq<char>) -> bool {
    path.len() > 0 && path[0] == '/'
}

/// `path` appended to the folder `base`: a separator is put between the two
/// unless `base` is empty or already ends with one.
pub open spec fn joined(base: Seq<char>, path: Seq<char>) -> Seq<char> {
    if base.len() == 0 || base.last() == '/' {
        base + path
    } else {
        base + seq!['/'] + path
    }
}

/// Where `val` points when it is read from the folder `relative`: an absolute
/// path stands for itself, any other is taken below `relative`.
pub open spec fn resolved(val: Seq<char>, relative: Seq<char>) -> Seq<char> {
    if is_absolute(val) {
        val
    } else {
        joined(relative, val)
    }
}

/// The project root: the folder given on the command line, resolved against
/// the working directory, or the working directory itself.
pub open spec fn root_folder(root: Option<String>, pwd: Seq<char>) -> Seq<char> {
    match root {
        Some(r) => resolved(r@, pwd),
        None => pwd,
    }
}

/// The main file that is loaded when none is named.
pub open spec fn default_main_file() -> Seq<char> {
    "main.tree"@
}

/// Resolves the path `val` against the folder `relative`.
pub fn buf(val: &str, relative: String) -> (full: String)
    ensures
        full@ == resolved(val@, relative@),
{
    let absolute = !val.is_empty() && val.get_char(0) == '/';
    if absolute {
        String::from_str(val)
    } else {
        let mut full_path = relative;
        let n = full_path.as_str().unicode_len();
        if n > 0 && full_path.as_str().get_char(n - 1) != '/' {
            proof {
                reveal_strlit("/");
                assert("/"@ =~= seq!['/']);
            }
            full_path.append("/");
        }
        full_path.append(val);
        full_path
    }
}

/// The commands of the front end.
#[derive(Clone, Copy, Debug, PartialEq, Eq, Structural)]
pub enum Command {
    /// Run a simulation under a profile.
    Sim,
    /// Render the tree as an image.
    Vis,
    /// Convert the tree to the navigation format.
    Nav2,
    /// Print the standard actions.
    PrintStdActions,
    /// Print the navigation actions.
    PrintRosNav2,
}

impl Command {
    /// The command that `name` selects, if any.
    pub open spec fn named(name: Seq<char>) -> Option<Command> {
        if name == "sim"@ {
            Some(Command::Sim)
        } else if name == "vis"@ {
            Some(Command::Vis)
        } else if name == "nav2"@ {
            Some(Command::Nav2)
        } else if name == "print-std-actions"@ {
            Some(Command::PrintStdActions)
        } else if name == "print-ros-nav2"@ {
            Some(Command::PrintRosNav2)
        } else {
            None
        }
    }

    /// Selects a command by the name it has on the command line; a name that
    /// matches no command selects none.
    pub fn parse(name: &str) -> (r: Option<Command>)
        ensures
            r == Command::named(name@),
    {
        let given = String::from_str(name);
        if given == String::from_str("sim") {
            Some(Command::Sim)
        } else if given == String::from_str("vis") {
            Some(Command::Vis)
        } else if given == String::from_str("nav2") {
            Some(Command::Nav2)
        } else if given == String::from_str("print-std-actions") {
            Some(Command::PrintStdActions)
        } else if given == String::from_str("print-ros-nav2") {
            Some(Command::PrintRosNav2)
        } else {
            None
        }
    }
}

/// What a simulation is started with.
#[derive(Debug, PartialEq, Eq)]
pub struct SimRequest {
    /// The project root.
    pub root: String,
    /// The main file, below the root.
    pub main_file: String,
    /// The root tree in the main file, where one is named.
    pub main_tree: Option<String>,
    /// The simulation profile, where one is given.
    pub profile: Option<String>,
}

/// Lays out a simulation from the arguments of the `sim` command: the root
/// is resolved against the working directory, the profile against the root,
/// and the main file defaults to `main.tree`.
pub fn sim_request(
    pwd: String,
    root: Option<String>,
    main: Option<String>,
    tree: Option<String>,
    profile: Option<String>,
) -> (r: SimRequest)
    ensures
        r.root@ == root_folder(root, pwd@),
        r.main_file@ == (match main {
            Some(m) => m@,
            None => default_main_file(),
        }),
        r.main_tree == tree,
        r.profile is Some == profile is Some,
        profile matches Some(p) ==> r.profile.unwrap()@ == resolved(p@, root_folder(root, pwd@)),
{
    let root_path = match &root {
        Some(given) => buf(given.as_str(), pwd),
        None => pwd,
    };
    let main_file = match main {
        Some(m) => m,
        None => String::from_str("main.tree"),
    };
    let profile_path = match &profile {
        Some(p) => Some(buf(p.as_str(), root_path.clone())),
        None => None,
    };
    SimRequest { root: root_path, main_file, main_tree: tree, profile: profile_path }
}

/// What an export of the tree, as an image or in the navigation format, is
/// started with.
#[derive(Debug, PartialEq, Eq)]
pub struct ExportRequest {
    /// The project root.
    pub root: String,
    /// The main file, where one is named.
    pub main_file: Option<String>,
    /// The root tree in the main file, where one is named.
    pub main_tree: Option<String>,
    /// The file that receives the result, where one is named.
    pub output: Option<String>,
}

/// Lays out an export from the arguments of the `vis` and `nav2` commands:
/// the root is resolved against the working directory, the rest is handed on.
pub fn export_request(
    pwd: String,
    root: Option<String>,
    main: Option<String>,
    tree: Option<String>,
    output: Option<String>,
) -> (r: ExportRequest)
    ensures
        r.root@ == root_folder(root, pwd@),
        r.main_file == main,
        r.main_tree == tree,
        r.output == output,
{
    let root_path = match &root {
        Some(given) => buf(given.as_str(), pwd),
        None => pwd,
    };
    ExportRequest { root: root_path, main_file: main, main_tree: tree, output }
}

} // verus!
