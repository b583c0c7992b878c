//! The command line: which command the program runs.
use vstd::prelude::*;

verus! {

/// A command of the program.
#[derive(Debug)]
pub enum Command {
    /// Too few arguments: print the usage and stop with an error.
    Usage,
    /// Index the folder given (the data folder when none is).
    Index(String),
    /// Answer the query given, or, when none is, queries read from the
    /// terminal.
    Search(Option<String>),
    /// Serve the web interface.
    Serve,
    /// An unknown command: report it and stop with an error.
    Unknown(String),
}

/// The word `index`.
pub open spec fn index_word() -> Seq<char> {
    seq!['i', 'n', 'd', 'e', 'x']
}

/// The folder indexed when none is given: `./data`, which search results
/// are read back from.
pub open spec fn default_folder() -> Seq<char> {
    seq!['.', '/', 'd', 'a', 't', 'a']
}

/// The word `search`.
pub open spec fn search_word() -> Seq<char> {
    seq!['s', 'e', 'a', 'r', 'c', 'h']
}

/// The word `serve`.
pub open spec fn serve_word() -> Seq<char> {
    seq!['s', 'e', 'r', 'v', 'e']
}

/// `c` is the command that the arguments `args` (the program's name
/// first) ask for: by the first argument after the name, `index` (with the
/// folder after it, or the data folder), `search` (with the query after it,
/// if any), `serve`, or an unknown one; with no argument after the name, the
/// usage.
pub open spec fn is_command_for(c: Command, args: Seq<Seq<char>>) -> bool {
    if args.len() < 2 {
        c is Usage
    } else if args[1] == index_word() {
        c matches Command::Index(folder) && folder@ == if args.len() >= 3 {
            args[2]
        } else {
            default_folder()
        }
    } else if args[1] == search_word() {
        c matches Command::Search(query) && if args.len() >= 3 {
            query matches Some(q) && q@ == args[2]
        } else {
            query is None
        }
    } else if args[1] == serve_word() {
        c is Serve
    } else {
        c matches Command::Unknown(name) && name@ == args[1]
    }
}

fn string_from(cs: &[char]) -> (r: String)
    ensures
        r@ == cs@,
{
    crate::text::string_of(cs)
}

/// Decides the command from the program's arguments.  The `index` command
/// takes the folder, and the `search` command the query, as the next
/// argument, if there is one.
pub fn parse_command(args: &Vec<String>) -> (r: Command)
    ensures
        is_command_for(r, crate::text::string_views(args@)),
{
    let ghost a = crate::text::string_views(args@);
    if args.len() < 2 {
        return Command::Usage;
    }
    assert(a[1] == args@[1]@);
    let index = string_from(vec!['i', 'n', 'd', 'e', 'x'].as_slice());
    let search = string_from(vec!['s', 'e', 'a', 'r', 'c', 'h'].as_slice());
    let serve = string_from(vec!['s', 'e', 'r', 'v', 'e'].as_slice());
    assert(index@ == index_word());
    assert(search@ == search_word());
    assert(serve@ == serve_word());
    if args[1] == index {
        if args.len() >= 3 {
            assert(a[2] == args@[2]@);
            Command::Index(args[2].clone())
        } else {
            let folder = string_from(vec!['.', '/', 'd', 'a', 't', 'a'].as_slice());
            Command::Index(folder)
        }
    } else if args[1] == search {
        if args.len() >= 3 {
            assert(a[2] == args@[2]@);
            Command::Search(Some(args[2].clone()))
        } else {
            Command::Search(None)
        }
    } else if args[1] == serve {
        Command::Serve
    } else {
        Command::Unknown(args[1].clone())
    }
}

} // verus!
