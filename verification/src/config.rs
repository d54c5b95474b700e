//! The server's settings and how the program's arguments set them.
use vstd::prelude::*;
use vstd::string::*;

verus! {

/// The server's settings: the directory that `/files/` serves, and the port.
#[derive(Debug)]
pub struct AppConfig {
    pub serve_directory: String,
    pub port: u32,
}

/// The directory served when no argument names one.
pub open spec fn default_directory() -> Seq<char> {
    "./tmp/"@
}

/// The port the server listens on.
pub open spec fn default_port() -> u32 {
    4221
}

/// The argument that names the directory to serve in the argument after it.
pub open spec fn directory_flag() -> Seq<char> {
    "--directory"@
}

/// The directory that the first `k` arguments select: the argument after the last
/// `--directory` among them, or the default.
pub open spec fn directory_after(args: Seq<Seq<char>>, k: int) -> Seq<char>
    decreases k,
{
    if k <= 0 {
        default_directory()
    } else if args[k - 1] == directory_flag() && k < args.len() {
        args[k]
    } else {
        directory_after(args, k - 1)
    }
}

proof fn lemma_directory_after_from(args: Seq<Seq<char>>, k: int, i: int)
    requires
        0 <= k,
        k + 1 < args.len(),
        args[k] == directory_flag(),
        forall|m: int| k < m && m + 1 < args.len() ==> args[m] != directory_flag(),
        k + 1 <= i <= args.len(),
    ensures
        directory_after(args, i) == args[k + 1],
    decreases i,
{
    if i > k + 1 {
        lemma_directory_after_from(args, k, i - 1);
    }
}

/// The served directory is the argument right after the last `--directory` that
/// has an argument after it.
pub proof fn lemma_last_directory_wins(args: Seq<Seq<char>>, k: int)
    requires
        0 <= k,
        k + 1 < args.len(),
        args[k] == directory_flag(),
        forall|m: int| k < m && m + 1 < args.len() ==> args[m] != directory_flag(),
    ensures
        directory_after(args, args.len() as int) == args[k + 1],
{
    lemma_directory_after_from(args, k, args.len() as int);
}

proof fn lemma_default_directory_upto(args: Seq<Seq<char>>, i: int)
    requires
        forall|m: int| 0 <= m && m + 1 < args.len() ==> args[m] != directory_flag(),
        i <= args.len(),
    ensures
        directory_after(args, i) == default_directory(),
    decreases i,
{
    if i > 0 {
        lemma_default_directory_upto(args, i - 1);
    }
}

/// With no `--directory` followed by an argument, the default directory is served.
pub proof fn lemma_default_directory(args: Seq<Seq<char>>)
    requires
        forall|m: int| 0 <= m && m + 1 < args.len() ==> args[m] != directory_flag(),
    ensures
        directory_after(args, args.len() as int) == "./tmp/"@,
{
    lemma_default_directory_upto(args, args.len() as int);
}

/// The arguments other than `--directory`, in order (each is reported as unsupported,
/// the value after a `--directory` included).
pub open spec fn unsupported_arguments(args: Seq<Seq<char>>) -> Seq<Seq<char>>
    decreases args.len(),
{
    if args.len() == 0 {
        Seq::empty()
    } else if args.last() == directory_flag() {
        unsupported_arguments(args.drop_last())
    } else {
        unsupported_arguments(args.drop_last()).push(args.last())
    }
}

/// The arguments end with a `--directory` that has no value after it.
pub open spec fn directory_value_missing(args: Seq<Seq<char>>) -> bool {
    args.len() > 0 && args.last() == directory_flag()
}

/// Why the arguments give no settings.
#[derive(Clone, Copy, Debug, PartialEq, Eq, Structural)]
pub enum ConfigError {
    /// The last argument is `--directory`, with no value after it.
    MissingDirectoryValue,
}

/// What the program's arguments give: the settings (or why there are none), and the
/// arguments that are not understood, in order.
pub struct ArgumentReport {
    pub config: Result<AppConfig, ConfigError>,
    pub unsupported: Vec<String>,
}

impl AppConfig {
    /// Reads the settings from the program's arguments (the program's name
    /// included): `--directory <dir>` selects the served directory, the last one
    /// counting; the port is always 4221.
    pub fn from_arguments(arguments: &Vec<String>) -> (r: ArgumentReport)
        ensures
            r.unsupported@.len() == unsupported_arguments(arguments@.map_values(|a: String| a@)).len(),
            forall|k: int|
                0 <= k < r.unsupported@.len() ==> #[trigger] r.unsupported@[k]@
                    == unsupported_arguments(arguments@.map_values(|a: String| a@))[k],
            r.config is Err <==> directory_value_missing(arguments@.map_values(|a: String| a@)),
            r.config matches Err(e) ==> e == ConfigError::MissingDirectoryValue,
            r.config matches Ok(c) ==> c.serve_directory@ == directory_after(
                arguments@.map_values(|a: String| a@),
                arguments@.len() as int,
            ) && c.port == default_port(),
            r.config matches Ok(c) ==> forall|k: int|
                0 <= k && k + 1 < arguments@.len() && #[trigger] arguments@[k]@ == directory_flag()
                    && (forall|m: int|
                    k < m && m + 1 < arguments@.len() ==> arguments@[m]@ != directory_flag())
                    ==> c.serve_directory@ == arguments@[k + 1]@,
            r.config matches Ok(c) ==> (forall|m: int|
                0 <= m && m + 1 < arguments@.len() ==> arguments@[m]@ != directory_flag())
                ==> c.serve_directory@ == "./tmp/"@,
    {
        let ghost args = arguments@.map_values(|a: String| a@);
        let flag = String::from_str("--directory");
        let mut serve_directory = String::from_str("./tmp/");
        let mut unsupported: Vec<String> = Vec::new();
        let n = arguments.len();
        let mut index: usize = 0;
        assert(args.take(0) =~= Seq::<Seq<char>>::empty());
        while index < n
            invariant
                n == arguments@.len(),
                args == arguments@.map_values(|a: String| a@),
                flag@ == directory_flag(),
                index <= n,
                serve_directory@ == directory_after(args, index as int),
                forall|k: int| 0 <= k < index && args[k] == directory_flag() ==> k + 1 < n,
                unsupported@.len() == unsupported_arguments(args.take(index as int)).len(),
                forall|k: int|
                    0 <= k < unsupported@.len() ==> #[trigger] unsupported@[k]@
                        == unsupported_arguments(args.take(index as int))[k],
            decreases n - index,
        {
            let argument = &arguments[index];
            proof {
                assert(args.take(index + 1).drop_last() =~= args.take(index as int));
                assert(args.take(index + 1).last() == argument@);
            }
            if *argument == flag {
                if index + 1 < n {
                    serve_directory = arguments[index + 1].clone();
                } else {
                    assert(args.drop_last() =~= args.take(index as int));
                    return ArgumentReport {
                        config: Err(ConfigError::MissingDirectoryValue),
                        unsupported,
                    };
                }
            } else {
                unsupported.push(argument.clone());
            }
            index = index + 1;
        }
        assert(args.take(n as int) =~= args);
        proof {
            assert forall|k: int|
                0 <= k && k + 1 < arguments@.len() && #[trigger] arguments@[k]@ == directory_flag()
                    && (forall|m: int|
                    k < m && m + 1 < arguments@.len() ==> arguments@[m]@ != directory_flag())
                    implies serve_directory@ == arguments@[k + 1]@ by {
                assert(args[k] == arguments@[k]@);
                assert forall|m: int| k < m && m + 1 < args.len() implies args[m] != directory_flag() by {
                    assert(args[m] == arguments@[m]@);
                }
                lemma_last_directory_wins(args, k);
            }
            if forall|m: int| 0 <= m && m + 1 < arguments@.len() ==> arguments@[m]@ != directory_flag() {
                assert forall|m: int| 0 <= m && m + 1 < args.len() implies args[m] != directory_flag() by {
                    assert(args[m] == arguments@[m]@);
                }
                lemma_default_directory(args);
            }
        }
        ArgumentReport { config: Ok(AppConfig { serve_directory, port: 4221 }), unsupported }
    }
}

} // verus!
