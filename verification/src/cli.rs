//! Command-line argument interpretation: which role to run, where the
//! workspace is, and which port to use. The caller collects the raw
//! arguments and canonicalizes the path; the rules live here.

use vstd::prelude::*;
use vstd::utf8::encode_utf8;
use crate::json::{parse_u64, sp_u64, str_eq};

verus! {

/// The role this process runs as.
pub enum Command {
    Serve,
    Connect,
}

/// What the command line asked for.
pub struct Args {
    pub command: Command,
    pub workspace_path: String,
    pub port: u16,
}

/// Why the command line was rejected.
pub enum ParseArgsError {
    InvalidArguments,
    InvalidCommand(String),
    InvalidPath(String),
    InvalidPortNumber(String),
}

/// The port a text names: its decimal value, if it has one and it fits.
pub open spec fn port_of(s: Seq<char>) -> Option<u16> {
    match sp_u64(encode_utf8(s)) {
        Some((v, rest)) => if rest.len() == 0 && v <= 65535 {
            Some(v as u16)
        } else {
            None
        },
        None => None,
    }
}

/// Parse a port number.
pub fn parse_port(s: &String) -> (r: Option<u16>)
    ensures
        r == port_of(s@),
{
    let bs = s.as_str().as_bytes();
    let mut bytes: Vec<u8> = Vec::new();
    let mut i: usize = 0;
    while i < bs.len()
        invariant
            i <= bs@.len(),
            bytes@ == bs@.take(i as int),
        decreases bs@.len() - i,
    {
        bytes.push(bs[i]);
        proof {
            assert(bytes@ =~= bs@.take(i + 1));
        }
        i = i + 1;
    }
    proof {
        assert(bytes@ =~= bs@);
        assert(bytes@.skip(0) =~= bytes@);
    }
    match parse_u64(&bytes, 0) {
        Ok((v, np)) => {
            if np == bytes.len() && v <= 65535 {
                proof {
                    assert(bytes@.skip(np as int).len() == 0);
                }
                Some(v as u16)
            } else {
                proof {
                    if np < bytes@.len() {
                        assert(bytes@.skip(np as int).len() > 0);
                    }
                }
                None
            }
        },
        Err(_) => None,
    }
}

/// Interpret the raw command-line arguments: a command (`serve` or
/// `connect`), a workspace path, and an optional port, 8080 when absent.
/// The path is taken as given; the caller canonicalizes it afterwards.
pub fn parse_args(args: &Vec<String>) -> (r: Result<Args, ParseArgsError>)
    ensures
        match r {
            Ok(a) => {
                &&& args@.len() >= 2
                &&& args@[0]@ != "-h"@ && args@[0]@ != "--help"@
                &&& (a.command is Serve <==> args@[0]@ == "serve"@)
                &&& (a.command is Connect <==> args@[0]@ == "connect"@)
                &&& a.workspace_path@ == args@[1]@
                &&& if args@.len() >= 3 {
                    port_of(args@[2]@) == Some(a.port)
                } else {
                    a.port == 8080
                }
            },
            Err(e) => match e {
                ParseArgsError::InvalidArguments => args@.len() < 2 || args@[0]@ == "-h"@
                    || args@[0]@ == "--help"@,
                ParseArgsError::InvalidCommand(c) => {
                    &&& args@.len() >= 2
                    &&& c@ == args@[0]@
                    &&& args@[0]@ != "serve"@ && args@[0]@ != "connect"@
                },
                ParseArgsError::InvalidPortNumber(p) => {
                    &&& args@.len() >= 3
                    &&& p@ == args@[2]@
                    &&& port_of(args@[2]@) is None
                },
                ParseArgsError::InvalidPath(_) => false,
            },
        },
{
    if args.len() < 2 || str_eq(args[0].as_str(), "-h") || str_eq(args[0].as_str(), "--help") {
        return Err(ParseArgsError::InvalidArguments);
    }
    let command = if str_eq(args[0].as_str(), "serve") {
        Command::Serve
    } else if str_eq(args[0].as_str(), "connect") {
        Command::Connect
    } else {
        return Err(ParseArgsError::InvalidCommand(args[0].clone()));
    };
    let workspace_path = args[1].clone();
    let port: u16 = if args.len() >= 3 {
        match parse_port(&args[2]) {
            Some(p) => p,
            None => {
                return Err(ParseArgsError::InvalidPortNumber(args[2].clone()));
            },
        }
    } else {
        8080
    };
    proof {
        reveal_strlit("serve");
        reveal_strlit("connect");
        assert("serve"@.len() != "connect"@.len());
    }
    Ok(Args { command, workspace_path, port })
}

} // verus!
