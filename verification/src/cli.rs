//! The command line: its options, their defaults and the rules between them.

use vstd::prelude::*;

verus! {

/// How a directory listing is laid out.
#[derive(Debug, Clone, Copy, PartialEq, Eq, Structural)]
pub enum DirectoryListingViewType {
    Grid,
    List,
    CompactList,
}

impl DirectoryListingViewType {
    /// The name of the view on the command line and on the wire.
    pub open spec fn spec_name(self) -> Seq<char> {
        match self {
            DirectoryListingViewType::Grid => seq!['g', 'r', 'i', 'd'],
            DirectoryListingViewType::List => seq!['l', 'i', 's', 't'],
            DirectoryListingViewType::CompactList => seq![
                'c',
                'o',
                'm',
                'p',
                'a',
                'c',
                't',
                '-',
                'l',
                'i',
                's',
                't',
            ],
        }
    }

    /// The name of the view.
    pub fn name(self) -> (name: String)
        ensures
            name@ == self.spec_name(),
    {
        proof {
            reveal_strlit("grid");
            reveal_strlit("list");
            reveal_strlit("compact-list");
        }
        let name = match self {
            DirectoryListingViewType::Grid => String::from_str("grid"),
            DirectoryListingViewType::List => String::from_str("list"),
            DirectoryListingViewType::CompactList => String::from_str("compact-list"),
        };
        assert(name@ =~= self.spec_name());
        name
    }

    /// The view of the given name.
    pub fn from_name(name: &str) -> (view: Option<DirectoryListingViewType>)
        ensures
            match view {
                Some(v) => name@ == v.spec_name(),
                None => forall|v: DirectoryListingViewType| name@ != v.spec_name(),
            },
    {
        let given = String::from_str(name);
        if given == DirectoryListingViewType::Grid.name() {
            Some(DirectoryListingViewType::Grid)
        } else if given == DirectoryListingViewType::List.name() {
            Some(DirectoryListingViewType::List)
        } else if given == DirectoryListingViewType::CompactList.name() {
            Some(DirectoryListingViewType::CompactList)
        } else {
            None
        }
    }
}

/// The port that is served when none is asked for.
pub const DEFAULT_PORT: u16 = 8000;

/// What the command line holds, before defaults and rules are applied.
pub struct GivenArgs {
    /// Files and directories to serve, and addresses that may connect.
    pub paths_and_ips: Vec<String>,
    /// Let clients upload new files.
    pub upload: bool,
    /// Let clients upload files and overwrite existing ones.
    pub upload_overwrite: bool,
    /// Paths to serve, whatever they look like.
    pub paths: Vec<String>,
    /// The port to serve on.
    pub port: Option<u16>,
    /// Do not try further ports when the requested one is taken.
    pub no_port_increment: bool,
    /// Serve on the loopback interface only.
    pub private: bool,
    /// Do not compute the sizes of directories.
    pub no_directory_sizes: bool,
    /// The name of the view that listings start in.
    pub default_view: Option<String>,
    /// The page title where no item is open.
    pub title: Option<String>,
}

/// The options the server runs with.
#[derive(Debug)]
pub struct Args {
    /// Files and directories to serve, and addresses that may connect.
    pub paths_and_ips: Vec<String>,
    /// Let clients upload new files.
    pub upload: bool,
    /// Let clients upload files and overwrite existing ones.
    pub upload_overwrite: bool,
    /// Paths to serve, whatever they look like.
    pub paths: Vec<String>,
    /// The port to serve on.
    pub port: u16,
    /// Do not try further ports when the requested one is taken.
    pub no_port_increment: bool,
    /// Serve on the loopback interface only.
    pub private: bool,
    /// Do not compute the sizes of directories.
    pub no_directory_sizes: bool,
    /// The view that listings start in.
    pub default_view: DirectoryListingViewType,
    /// The page title where no item is open.
    pub title: Option<String>,
}

/// Why a command line is refused.
#[derive(Debug, Clone, Copy, PartialEq, Eq, Structural)]
pub enum ArgsError {
    /// Both upload options were given; each excludes the other.
    ConflictingUploadOptions,
    /// The default view names no view.
    UnknownView,
}

/// The view that `given` asks for: the named one, the grid if none is named.
pub open spec fn chosen_view(given: Option<String>) -> Option<DirectoryListingViewType> {
    match given {
        None => Some(DirectoryListingViewType::Grid),
        Some(name) => if name@ == DirectoryListingViewType::Grid.spec_name() {
            Some(DirectoryListingViewType::Grid)
        } else if name@ == DirectoryListingViewType::List.spec_name() {
            Some(DirectoryListingViewType::List)
        } else if name@ == DirectoryListingViewType::CompactList.spec_name() {
            Some(DirectoryListingViewType::CompactList)
        } else {
            None
        },
    }
}

/// What `get_args` makes of a command line.
pub open spec fn args_outcome(given: GivenArgs) -> Result<(), ArgsError> {
    if given.upload && given.upload_overwrite {
        Err(ArgsError::ConflictingUploadOptions)
    } else if chosen_view(given.default_view) is None {
        Err(ArgsError::UnknownView)
    } else {
        Ok(())
    }
}

/// Applies the defaults and the rules of the command line: the port is 8000
/// and the view the grid unless given, and the two upload options exclude
/// each other.
pub fn get_args(given: GivenArgs) -> (args: Result<Args, ArgsError>)
    ensures
        args is Ok <==> args_outcome(given) is Ok,
        args matches Err(e) ==> args_outcome(given) == Err::<(), ArgsError>(e),
        args matches Ok(a) ==> {
            &&& a.paths_and_ips == given.paths_and_ips
            &&& a.upload == given.upload
            &&& a.upload_overwrite == given.upload_overwrite
            &&& a.paths == given.paths
            &&& a.port == (if given.port is Some { given.port->0 } else { DEFAULT_PORT })
            &&& a.no_port_increment == given.no_port_increment
            &&& a.private == given.private
            &&& a.no_directory_sizes == given.no_directory_sizes
            &&& Some(a.default_view) == chosen_view(given.default_view)
            &&& a.title == given.title
        },
{
    if given.upload && given.upload_overwrite {
        return Err(ArgsError::ConflictingUploadOptions);
    }
    let default_view = match &given.default_view {
        None => DirectoryListingViewType::Grid,
        Some(name) => match DirectoryListingViewType::from_name(name.as_str()) {
            Some(view) => view,
            None => {
                return Err(ArgsError::UnknownView);
            },
        },
    };
    let port = match given.port {
        Some(port) => port,
        None => DEFAULT_PORT,
    };
    Ok(
        Args {
            paths_and_ips: given.paths_and_ips,
            upload: given.upload,
            upload_overwrite: given.upload_overwrite,
            paths: given.paths,
            port,
            no_port_increment: given.no_port_increment,
            private: given.private,
            no_directory_sizes: given.no_directory_sizes,
            default_view,
            title: given.title,
        },
    )
}

} // verus!
