//! The arguments of the command line.
//!
//! `--userauth=<token>` gives the user's authentication token, `--seal=<level>`
//! asks to seal a key at an authentication level, and the one argument without
//! `=` names the key file. Each may stand once, in any order.

use crate::error::KeycacheError;
use crate::keywrap::AuthLevel;
use crate::text::str_equal;
use vstd::prelude::*;
use vstd::string::StrSliceExecFns;

verus! {

/// Whether `std::path::Path::extension` finds no extension in a path.
pub uninterp spec fn path_extension_is_none(path: Seq<char>) -> bool;

/// What `std::path::Path::with_extension` makes of a path and an extension.
pub uninterp spec fn path_with_extension(path: Seq<char>, extension: Seq<char>) -> Seq<char>;

/// `std::path::Path::extension` on `path`: whether it finds none.
#[verifier::external_body]
fn extension_is_none(path: &str) -> (none: bool)
    ensures
        none == path_extension_is_none(path@),
{
    std::path::Path::new(path).extension().is_none()
}

/// `std::path::Path::with_extension` on `path`, which puts `extension` in
/// place of the path's own. It panics on an extension that holds a path
/// separator, so none may be handed in.
#[verifier::external_body]
fn with_extension(path: &str, extension: &str) -> (changed: String)
    requires
        forall|i: int|
            0 <= i < extension@.len() ==> extension@[i] != '/' && extension@[i] != '\\',
    ensures
        changed@ == path_with_extension(path@, extension@),
{
    std::path::Path::new(path).with_extension(extension).to_string_lossy().into_owned()
}

/// The name of the key file.
#[derive(Debug, Clone)]
pub struct Filename(pub String);

impl View for Filename {
    type V = Seq<char>;

    open spec fn view(&self) -> Seq<char> {
        self.0@
    }
}

impl Filename {
    /// The name to work on for a path as it was given: the path itself where it
    /// exists or has an extension, and else the path with the extension of key files.
    pub open spec fn resolved(filepath: Seq<char>, exists: bool) -> Seq<char> {
        if !exists && path_extension_is_none(filepath) {
            path_with_extension(filepath, ".keycache"@)
        } else {
            filepath
        }
    }

    /// Makes the name of the key file from the path that was given and from
    /// whether something exists at that path.
    pub fn from(filepath: String, exists: bool) -> (name: Filename)
        ensures
            name@ == Filename::resolved(filepath@, exists),
    {
        if exists {
            return Filename(filepath);
        }
        if extension_is_none(filepath.as_str()) {
            proof {
                reveal_strlit(".keycache");
            }
            Filename(with_extension(filepath.as_str(), ".keycache"))
        } else {
            Filename(filepath)
        }
    }

    /// The name as text.
    pub fn as_str(&self) -> (text: &str)
        ensures
            text@ == self@,
    {
        self.0.as_str()
    }
}

/// The arguments of one run.
#[derive(Debug, Clone)]
pub struct CliArgs {
    /// The user's authentication token, such as a PIN.
    pub flag_userauth: Option<String>,
    /// The authentication level to seal at; without it the key file is opened.
    pub flag_seal: Option<AuthLevel>,
    /// The name of the key file.
    pub name: Filename,
}

/// What the arguments of one run hold.
pub struct CliArgsView {
    /// The user's authentication token.
    pub flag_userauth: Option<Seq<char>>,
    /// The authentication level to seal at.
    pub flag_seal: Option<AuthLevel>,
    /// The name of the key file.
    pub name: Seq<char>,
}

impl View for CliArgs {
    type V = CliArgsView;

    open spec fn view(&self) -> CliArgsView {
        CliArgsView {
            flag_userauth: text_view(self.flag_userauth),
            flag_seal: self.flag_seal,
            name: self.name@,
        }
    }
}

/// What was found among the arguments read so far.
pub struct Found {
    /// The token, once `--userauth=` was read.
    pub userauth: Option<Seq<char>>,
    /// The level, once `--seal=` was read.
    pub seal: Option<AuthLevel>,
    /// The path, once an argument without `=` was read.
    pub name: Option<Seq<char>>,
}

/// The characters of a text that may be missing.
pub open spec fn text_view(text: Option<String>) -> Option<Seq<char>> {
    match text {
        Some(found) => Some(found@),
        None => None,
    }
}

/// The characters of each argument.
pub open spec fn texts(args: Seq<String>) -> Seq<Seq<char>> {
    Seq::new(args.len(), |i: int| args[i]@)
}

/// Whether the first `=` of `arg` stands at index `at`.
pub open spec fn first_equals_at(arg: Seq<char>, at: int) -> bool {
    &&& 0 <= at < arg.len()
    &&& arg[at] == '='
    &&& forall|j: int| 0 <= j < at ==> arg[j] != '='
}

/// Whether `arg` holds no `=`.
pub open spec fn without_equals(arg: Seq<char>) -> bool {
    forall|j: int| 0 <= j < arg.len() ==> arg[j] != '='
}

/// What stands before and behind the first `=` of `arg`, where it holds one.
pub open spec fn split_once(arg: Seq<char>) -> Option<(Seq<char>, Seq<char>)> {
    if exists|at: int| first_equals_at(arg, at) {
        let at = choose|at: int| first_equals_at(arg, at);
        Some((arg.take(at), arg.skip(at + 1)))
    } else {
        None
    }
}

/// What is found after one more argument. A flag that is not known, a flag or
/// a path that comes a second time, and a level that is no level are invalid input.
pub open spec fn take_argument(found: Found, arg: Seq<char>) -> Result<Found, KeycacheError> {
    match split_once(arg) {
        Some((flag, value)) => if flag == "--userauth"@ && found.userauth is None {
            Ok(Found { userauth: Some(value), ..found })
        } else if flag == "--seal"@ && found.seal is None {
            match AuthLevel::named(value) {
                Some(level) => Ok(Found { seal: Some(level), ..found }),
                None => Err(KeycacheError::InvalidInput),
            }
        } else {
            Err(KeycacheError::InvalidInput)
        },
        None => if found.name is None {
            Ok(Found { name: Some(arg), ..found })
        } else {
            Err(KeycacheError::InvalidInput)
        },
    }
}

/// What is found after the arguments, read from the first to the last; the
/// first that is invalid ends the reading.
pub open spec fn take_arguments(found: Found, args: Seq<Seq<char>>) -> Result<
    Found,
    KeycacheError,
>
    decreases args.len(),
{
    if args.len() == 0 {
        Ok(found)
    } else {
        match take_argument(found, args.first()) {
            Err(error) => Err(error),
            Ok(more) => take_arguments(more, args.drop_first()),
        }
    }
}

/// The arguments behind the program's own name.
pub open spec fn behind_program(argv: Seq<Seq<char>>) -> Seq<Seq<char>> {
    if argv.len() == 0 {
        argv
    } else {
        argv.skip(1)
    }
}

/// The arguments of a run as its command line gives them, where `name_exists`
/// says whether something exists at the path that it names. A command line
/// that names no path is invalid input.
pub open spec fn parsed(argv: Seq<Seq<char>>, name_exists: bool) -> Result<
    CliArgsView,
    KeycacheError,
> {
    match take_arguments(Found { userauth: None, seal: None, name: None }, behind_program(argv)) {
        Err(error) => Err(error),
        Ok(found) => match found.name {
            None => Err(KeycacheError::InvalidInput),
            Some(path) => Ok(
                CliArgsView {
                    flag_userauth: found.userauth,
                    flag_seal: found.seal,
                    name: Filename::resolved(path, name_exists),
                },
            ),
        },
    }
}

/// The path that a command line names: its first argument without `=`, behind
/// the program's own name.
pub open spec fn named_path(args: Seq<Seq<char>>) -> Option<Seq<char>>
    decreases args.len(),
{
    if args.len() == 0 {
        None
    } else if split_once(args.first()) is None {
        Some(args.first())
    } else {
        named_path(args.drop_first())
    }
}

/// The first `=` of a text stands where it stands: two indices of it are one.
pub proof fn lemma_split_once(arg: Seq<char>, at: int)
    requires
        first_equals_at(arg, at),
    ensures
        split_once(arg) == Some((arg.take(at), arg.skip(at + 1))),
{
    let chosen = choose|other: int| first_equals_at(arg, other);
    assert(first_equals_at(arg, chosen));
    assert(chosen == at) by {
        if chosen < at {
            assert(arg[chosen] != '=');
        } else if at < chosen {
            assert(arg[at] != '=');
        }
    }
}

/// A text without `=` is not split.
pub proof fn lemma_split_once_none(arg: Seq<char>)
    requires
        without_equals(arg),
    ensures
        split_once(arg) is None,
{
    if exists|at: int| first_equals_at(arg, at) {
        let at = choose|at: int| first_equals_at(arg, at);
        assert(arg[at] != '=');
    }
}

/// The path of what a command line gives is the path that the command line names.
pub proof fn lemma_found_name(found: Found, args: Seq<Seq<char>>)
    requires
        take_arguments(found, args) is Ok,
    ensures
        take_arguments(found, args).unwrap().name == match found.name {
            Some(path) => Some(path),
            None => named_path(args),
        },
        found.name is Some ==> named_path(args) is None,
    decreases args.len(),
{
    if args.len() > 0 {
        let more = take_argument(found, args.first()).unwrap();
        lemma_found_name(more, args.drop_first());
    }
}

/// Finds the first `=` of a text.
pub fn find_equals(arg: &str) -> (found: Option<usize>)
    ensures
        match found {
            Some(at) => first_equals_at(arg@, at as int),
            None => without_equals(arg@),
        },
{
    let len = arg.unicode_len();
    let mut i: usize = 0;
    while i < len
        invariant
            i <= len,
            len == arg@.len(),
            forall|j: int| 0 <= j < i ==> arg@[j] != '=',
        decreases len - i,
    {
        if arg.get_char(i) == '=' {
            return Some(i);
        }
        i = i + 1;
    }
    None
}

impl CliArgs {
    /// Finds the argument that names the key file: the index of the first
    /// argument without `=` behind the program's own name.
    pub fn name_argument(argv: &Vec<String>) -> (found: Option<usize>)
        ensures
            match found {
                Some(index) => 1 <= index < argv@.len() && named_path(
                    behind_program(texts(argv@)),
                ) == Some(argv@[index as int]@),
                None => named_path(behind_program(texts(argv@))) is None,
            },
    {
        let ghost args = behind_program(texts(argv@));
        if argv.len() == 0 {
            return None;
        }
        let mut i: usize = 1;
        assert(args.skip(0) =~= args);
        while i < argv.len()
            invariant
                1 <= i <= argv@.len(),
                args == texts(argv@).skip(1),
                named_path(args) == named_path(args.skip(i - 1)),
            decreases argv@.len() - i,
        {
            let ghost rest = args.skip(i - 1);
            assert(rest.first() == argv@[i as int]@);
            assert(rest.drop_first() =~= args.skip(i as int));
            match find_equals(argv[i].as_str()) {
                None => {
                    proof {
                        lemma_split_once_none(argv@[i as int]@);
                    }
                    return Some(i);
                },
                Some(at) => {
                    proof {
                        lemma_split_once(argv@[i as int]@, at as int);
                    }
                },
            }
            i = i + 1;
        }
        None
    }

    /// Reads the arguments of a run from its command line, of which the first
    /// entry is the program's own name. `name_exists` says whether something
    /// exists at the path that the command line names.
    pub fn from_args(argv: &Vec<String>, name_exists: bool) -> (args: Result<
        CliArgs,
        KeycacheError,
    >)
        ensures
            match args {
                Ok(found) => parsed(texts(argv@), name_exists) == Ok::<
                    CliArgsView,
                    KeycacheError,
                >(found@),
                Err(error) => parsed(texts(argv@), name_exists) == Err::<
                    CliArgsView,
                    KeycacheError,
                >(error),
            },
    {
        let ghost args = behind_program(texts(argv@));
        let ghost start = Found { userauth: None, seal: None, name: None };
        let mut flag_userauth: Option<String> = None;
        let mut flag_seal: Option<AuthLevel> = None;
        let mut name: Option<String> = None;
        let mut i: usize = if argv.len() == 0 {
            0
        } else {
            1
        };
        let ghost skipped = i as int;
        assert(texts(argv@).skip(skipped) =~= args);
        while i < argv.len()
            invariant
                skipped <= i <= argv@.len(),
                skipped == (if argv@.len() == 0 {
                    0int
                } else {
                    1int
                }),
                args == behind_program(texts(argv@)),
                start == (Found { userauth: None, seal: None, name: None }),
                take_arguments(start, args) == take_arguments(
                    Found {
                        userauth: text_view(flag_userauth),
                        seal: flag_seal,
                        name: text_view(name),
                    },
                    texts(argv@).skip(i as int),
                ),
            decreases argv@.len() - i,
        {
            let ghost found = Found {
                userauth: text_view(flag_userauth),
                seal: flag_seal,
                name: text_view(name),
            };
            let ghost rest = texts(argv@).skip(i as int);
            assert(rest.first() == argv@[i as int]@);
            assert(rest.drop_first() =~= texts(argv@).skip(i + 1));
            let arg: &str = argv[i].as_str();
            match find_equals(arg) {
                Some(at) => {
                    proof {
                        lemma_split_once(arg@, at as int);
                    }
                    let len = arg.unicode_len();
                    let flag = arg.substring_char(0, at);
                    let value = arg.substring_char(at + 1, len);
                    assert(flag@ =~= arg@.take(at as int));
                    assert(value@ =~= arg@.skip(at + 1));
                    if str_equal(flag, "--userauth") && flag_userauth.is_none() {
                        flag_userauth = Some(value.to_owned());
                    } else if str_equal(flag, "--seal") && flag_seal.is_none() {
                        match AuthLevel::try_from(value) {
                            Ok(level) => {
                                flag_seal = Some(level);
                            },
                            Err(error) => {
                                return Err(error);
                            },
                        }
                    } else {
                        return Err(KeycacheError::InvalidInput);
                    }
                },
                None => {
                    proof {
                        lemma_split_once_none(arg@);
                    }
                    if name.is_none() {
                        name = Some(argv[i].clone());
                    } else {
                        return Err(KeycacheError::InvalidInput);
                    }
                },
            }
            i = i + 1;
        }
        assert(texts(argv@).skip(i as int) =~= Seq::<Seq<char>>::empty());
        match name {
            None => Err(KeycacheError::InvalidInput),
            Some(path) => Ok(
                CliArgs { flag_userauth, flag_seal, name: Filename::from(path, name_exists) },
            ),
        }
    }
}

} // verus!
