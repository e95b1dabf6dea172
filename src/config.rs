use vstd::prelude::*;

verus! {

/// What the command line asks for: the path of the source file.
pub struct Config {
    pub path: String,
}

impl Config {
    /// Reads the source path from the argument list, whose first entry is
    /// the program's own name.
    pub fn new(args: &[String]) -> (r: Result<Config, &'static str>)
        ensures
            r is Err <==> args@.len() < 2,
            r is Ok ==> r->Ok_0.path@ == args@[1]@,
    {
        if args.len() < 2 {
            return Err("not enough arguments");
        }
        let path = args[1].clone();
        Ok(Config { path })
    }
}

} // verus!
