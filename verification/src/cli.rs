//! Startup options, read from `--key value` pairs.

use vstd::prelude::*;

verus! {

/// One recognized startup option: the base directory for file serving.
#[derive(Debug, Clone)]
pub enum CliOption {
    Directory(String),
}

/// The failure of option parsing: a key the server does not know.
#[derive(Clone, Copy, Debug, PartialEq, Eq, Structural)]
pub enum CliError {
    UnknownOption,
}

impl CliError {
    /// A human-readable description of the error.
    pub fn message(&self) -> (r: String)
        ensures
            r@ == "unknown option"@,
    {
        String::from_str("unknown option")
    }
}

/// The directories the option list names, in order.
pub open spec fn dirs_of(opts: Seq<CliOption>) -> Seq<Seq<char>> {
    opts.map_values(|o: CliOption| o->Directory_0@)
}

/// How the argument list reads as options: pairs are consumed left to
/// right, `--directory <dir>` yields a directory option, a known key whose
/// value is missing ends parsing quietly, and any other key fails.
pub open spec fn spec_parse_options(args: Seq<Seq<char>>) -> Result<Seq<Seq<char>>, CliError>
    decreases args.len(),
{
    if args.len() < 2 {
        Ok(Seq::empty())
    } else if args[0] == "--directory"@ {
        match spec_parse_options(args.skip(2)) {
            Ok(rest) => Ok(seq![args[1]] + rest),
            Err(e) => Err(e),
        }
    } else {
        Err(CliError::UnknownOption)
    }
}

impl CliOption {
    /// Read the option list from the raw arguments.
    pub fn from_str(options_string_vec: &[String]) -> (r: Result<Vec<CliOption>, CliError>)
        ensures
            ({
                let sr = spec_parse_options(options_string_vec.deep_view());
                match r {
                    Ok(opts) => sr == Ok::<Seq<Seq<char>>, CliError>(dirs_of(opts@)),
                    Err(e) => sr == Err::<Seq<Seq<char>>, CliError>(e),
                }
            }),
    {
        let ghost args = options_string_vec.deep_view();
        let mut options: Vec<CliOption> = Vec::new();
        let mut i: usize = 0;
        proof {
            assert(args.skip(0) =~= args);
            assert(dirs_of(options@) =~= Seq::<Seq<char>>::empty());
        }
        while i < options_string_vec.len() && i + 1 < options_string_vec.len()
            invariant
                i <= args.len(),
                args == options_string_vec.deep_view(),
                args.len() == options_string_vec@.len(),
                spec_parse_options(args) == (match spec_parse_options(args.skip(i as int)) {
                    Ok(rest) => Ok::<Seq<Seq<char>>, CliError>(dirs_of(options@) + rest),
                    Err(e) => Err::<Seq<Seq<char>>, CliError>(e),
                }),
            decreases args.len() - i,
        {
            proof {
                assert(args.skip(i as int)[0] == args[i as int]);
                assert(args.skip(i as int)[1] == args[i as int + 1]);
                assert(args.skip(i as int).skip(2) =~= args.skip(i as int + 2));
                assert(args[i as int] == options_string_vec@[i as int]@);
                assert(args[i as int + 1] == options_string_vec@[i as int + 1]@);
            }
            let key = &options_string_vec[i];
            let value = &options_string_vec[i + 1];
            if crate::text::str_eq_str(key.as_str(), "--directory") {
                let ghost old_dirs = dirs_of(options@);
                options.push(CliOption::Directory(value.clone()));
                proof {
                    assert(dirs_of(options@) =~= old_dirs.push(value@));
                    assert(forall|rest: Seq<Seq<char>>|
                        old_dirs + (seq![value@] + rest) =~= #[trigger] (dirs_of(options@)
                            + rest));
                }
            } else {
                return Err(CliError::UnknownOption);
            }
            i = i + 2;
        }
        proof {
            assert(args.skip(i as int).len() < 2);
            assert(dirs_of(options@) + Seq::<Seq<char>>::empty() =~= dirs_of(options@));
        }
        Ok(options)
    }
}

} // verus!
