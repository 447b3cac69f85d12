//! Startup: what is served and who may connect, read off the command line;
//! and what to do when the port is taken.

use vstd::prelude::*;
use crate::access::IpAddress;

verus! {

/// A positional argument of the command line, as it was read: an address
/// if it reads as one, a path otherwise.
#[derive(Debug)]
pub enum Argument {
    /// An address that may connect.
    Address(IpAddress),
    /// A path to serve.
    Path(String),
}

/// What the command line asks to serve, and to whom.
#[derive(Debug)]
pub struct Serving {
    /// The addresses that may connect, in the order given.
    pub whitelisted_ips: Vec<IpAddress>,
    /// The paths to serve, in the order given. Never empty.
    pub paths: Vec<String>,
}

/// The addresses among the arguments, in order.
pub open spec fn addresses_of(arguments: Seq<Argument>) -> Seq<IpAddress>
    decreases arguments.len(),
{
    if arguments.len() == 0 {
        Seq::empty()
    } else {
        match arguments.last() {
            Argument::Address(ip) => addresses_of(arguments.drop_last()).push(ip),
            Argument::Path(path) => addresses_of(arguments.drop_last()),
        }
    }
}

/// The paths among the arguments, in order, behind the paths in `first`.
pub open spec fn paths_of(first: Seq<Seq<char>>, arguments: Seq<Argument>) -> Seq<Seq<char>>
    decreases arguments.len(),
{
    if arguments.len() == 0 {
        first
    } else {
        match arguments.last() {
            Argument::Address(ip) => paths_of(first, arguments.drop_last()),
            Argument::Path(path) => paths_of(first, arguments.drop_last()).push(path@),
        }
    }
}

/// The paths that are served: the given ones, or the current directory if
/// none is given.
pub open spec fn served_paths(first: Seq<Seq<char>>, arguments: Seq<Argument>) -> Seq<Seq<char>> {
    if paths_of(first, arguments).len() == 0 {
        seq!["."@]
    } else {
        paths_of(first, arguments)
    }
}

/// Sorts the command line into paths to serve and addresses that may
/// connect: the paths named as such first, then the positional arguments
/// that are no addresses. Serves the current directory if no path is given.
pub fn split_paths_and_ips(paths: Vec<String>, arguments: Vec<Argument>) -> (serving: Serving)
    ensures
        serving.whitelisted_ips@ == addresses_of(arguments@),
        serving.paths@.map_values(|s: String| s@) == served_paths(
            paths@.map_values(|s: String| s@),
            arguments@,
        ),
        serving.paths@.len() > 0,
{
    let ghost first = paths@.map_values(|s: String| s@);
    let ghost all = arguments@;
    let mut whitelisted_ips: Vec<IpAddress> = Vec::new();
    let mut paths = paths;
    for argument in it: arguments
        invariant
            it.seq() == all,
            whitelisted_ips@ == addresses_of(all.take(it.index() as int)),
            paths@.map_values(|s: String| s@) == paths_of(first, all.take(it.index() as int)),
    {
        proof {
            let i = it.index() as int;
            assert(all.take(i + 1).drop_last() == all.take(i));
            assert(all.take(i + 1).last() == argument);
        }
        match argument {
            Argument::Address(ip) => {
                whitelisted_ips.push(ip);
            },
            Argument::Path(path) => {
                let ghost before = paths@;
                paths.push(path);
                assert(paths@.map_values(|s: String| s@) == before.map_values(|s: String| s@).push(
                    path@,
                ));
            },
        }
    }
    assert(all.take(all.len() as int) == all);
    if paths.len() == 0 {
        paths.push(String::from_str("."));
        assert(paths@.map_values(|s: String| s@) == seq!["."@]);
    }
    Serving { whitelisted_ips, paths }
}

/// Why a port could not be bound.
#[derive(Debug, Clone, Copy, PartialEq, Eq, Structural)]
pub enum BindFailure {
    /// The port is taken.
    AddressInUse,
    /// Anything else.
    Other,
}

/// What to do after a port could not be bound.
#[derive(Debug, Clone, Copy, PartialEq, Eq, Structural)]
pub enum BindStep {
    /// Try this port next.
    Try(u16),
    /// Report that the port is taken, and leave.
    PortTaken,
    /// Give up with the failure.
    Fail,
}

/// What to do after `port` could not be bound: a taken port is followed by
/// the next one, unless that is switched off or there is no next one.
pub fn after_bind_failure(port: u16, no_port_increment: bool, failure: BindFailure) -> (step:
    BindStep)
    ensures
        step == (if failure != BindFailure::AddressInUse {
            BindStep::Fail
        } else if no_port_increment {
            BindStep::PortTaken
        } else if port == u16::MAX {
            BindStep::Fail
        } else {
            BindStep::Try((port + 1) as u16)
        }),
{
    match failure {
        BindFailure::Other => BindStep::Fail,
        BindFailure::AddressInUse => {
            if no_port_increment {
                BindStep::PortTaken
            } else if port == u16::MAX {
                BindStep::Fail
            } else {
                BindStep::Try(port + 1)
            }
        },
    }
}

} // verus!
