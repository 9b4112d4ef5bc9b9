//! What the command line asks for.

use vstd::prelude::*;

verus! {

/// A request of the command line.
pub enum ArgumentOptions {
    /// Read EMP bytecode from a file and print it as text.
    ReadFromFile(String),
    /// Write a value given as text into a file as EMP bytecode.
    WriteToFile(String, String),
    /// Read JSON and print it as EMP text.
    FromJSON(String),
    /// Read EMP text and print it as JSON.
    ToJSON(String),
    Version,
    Help,
}

/// The model of an [`ArgumentOptions`].
pub enum Request {
    ReadFromFile(Seq<char>),
    WriteToFile(Seq<char>, Seq<char>),
    FromJson(Seq<char>),
    ToJson(Seq<char>),
    Version,
    Help,
}

impl View for ArgumentOptions {
    type V = Request;

    open spec fn view(&self) -> Request {
        match self {
            ArgumentOptions::ReadFromFile(f) => Request::ReadFromFile(f@),
            ArgumentOptions::WriteToFile(f, v) => Request::WriteToFile(f@, v@),
            ArgumentOptions::FromJSON(j) => Request::FromJson(j@),
            ArgumentOptions::ToJSON(e) => Request::ToJson(e@),
            ArgumentOptions::Version => Request::Version,
            ArgumentOptions::Help => Request::Help,
        }
    }
}

/// The request that the arguments make: the first one after the program's
/// name picks the option, the ones after it are its operands; a missing
/// operand or an unknown option asks for help.
pub open spec fn request_of(args: Seq<Seq<char>>) -> Request {
    if args.len() < 2 {
        Request::Help
    } else {
        let a = args[1];
        if a == "-r"@ || a == "--read"@ {
            if args.len() >= 3 {
                Request::ReadFromFile(args[2])
            } else {
                Request::Help
            }
        } else if a == "-w"@ || a == "--write"@ {
            if args.len() >= 4 {
                Request::WriteToFile(args[2], args[3])
            } else {
                Request::Help
            }
        } else if a == "-fj"@ || a == "--from_json"@ {
            if args.len() >= 3 {
                Request::FromJson(args[2])
            } else {
                Request::Help
            }
        } else if a == "-tj"@ || a == "--to_json"@ {
            if args.len() >= 3 {
                Request::ToJson(args[2])
            } else {
                Request::Help
            }
        } else if a == "-v"@ || a == "--version"@ {
            Request::Version
        } else {
            Request::Help
        }
    }
}

fn is_flag(a: &String, short: &str, long: &str) -> (r: bool)
    ensures
        r == (a@ == short@ || a@ == long@),
{
    *a == short.to_owned() || *a == long.to_owned()
}

/// Reads the command line: `args` holds the program's name, then its
/// arguments.
pub fn resolve_arguments(args: &[String]) -> (r: ArgumentOptions)
    ensures
        r@ == request_of(Seq::new(args@.len(), |i: int| args@[i]@)),
{
    let ghost m = Seq::new(args@.len(), |i: int| args@[i]@);
    let n = args.len();
    if n < 2 {
        return ArgumentOptions::Help;
    }
    let a = &args[1];
    assert(m[1] == a@);
    if is_flag(a, "-r", "--read") {
        if n >= 3 {
            return ArgumentOptions::ReadFromFile(args[2].clone());
        }
        return ArgumentOptions::Help;
    }
    if is_flag(a, "-w", "--write") {
        if n >= 4 {
            return ArgumentOptions::WriteToFile(args[2].clone(), args[3].clone());
        }
        return ArgumentOptions::Help;
    }
    if is_flag(a, "-fj", "--from_json") {
        if n >= 3 {
            return ArgumentOptions::FromJSON(args[2].clone());
        }
        return ArgumentOptions::Help;
    }
    if is_flag(a, "-tj", "--to_json") {
        if n >= 3 {
            return ArgumentOptions::ToJSON(args[2].clone());
        }
        return ArgumentOptions::Help;
    }
    if is_flag(a, "-v", "--version") {
        return ArgumentOptions::Version;
    }
    ArgumentOptions::Help
}

} // verus!
