//! Names and command lines: the name of the executable that a source file
//! is compiled to, and the arguments handed to the linker.

use vstd::prelude::*;
use vstd::string::*;

verus! {

/// The final component of a path, as `std::path::Path::file_name` gives it
/// on the platform the library is built for; `None` where the path has
/// none.
pub uninterp spec fn path_file_name(path: Seq<char>) -> Option<Seq<char>>;

/// Calls `std::path::Path::file_name` on the path written in `path`. The
/// contract gives the result its name, `path_file_name`, and claims
/// nothing else of it. The final component of a path that is valid UTF-8
/// is valid UTF-8 itself, so the conversion back to text loses nothing.
#[verifier::external_body]
fn file_name_of(path: &str) -> (r: Option<String>)
    ensures
        r is Some <==> path_file_name(path@) is Some,
        r matches Some(name) ==> path_file_name(path@) == Some(name@),
{
    match std::path::Path::new(path).file_name() {
        Some(name) => Some(name.to_string_lossy().into_owned()),
        None => None,
    }
}

/// The `.` at `i` is the last one in `name`.
pub open spec fn is_last_dot(name: Seq<char>, i: int) -> bool {
    &&& 0 <= i < name.len()
    &&& name[i] == '.'
    &&& forall|j: int| i < j < name.len() ==> name[j] != '.'
}

/// A file name without its final extension: all that stands before the
/// last `.`, or the whole name where it holds no `.`.
pub open spec fn without_extension(name: Seq<char>) -> Seq<char> {
    if exists|i: int| is_last_dot(name, i) {
        name.take(choose|i: int| is_last_dot(name, i))
    } else {
        name
    }
}

/// Removes the final extension of a file name.
pub fn strip_extension(name: &str) -> (r: String)
    ensures
        r@ == without_extension(name@),
{
    let len = name.unicode_len();
    let mut i: usize = len;
    while i > 0
        invariant
            i <= len,
            len == name@.len(),
            forall|j: int| i <= j < len ==> name@[j] != '.',
        decreases i,
    {
        if name.get_char(i - 1) == '.' {
            proof {
                let k = (i - 1) as int;
                assert(is_last_dot(name@, k));
                let c = choose|c: int| is_last_dot(name@, c);
                assert(c == k) by {
                    if c < k {
                        assert(name@[k] != '.');
                    } else if c > k {
                        assert(name@[c] != '.');
                    }
                }
                assert(name@.take(k) =~= name@.subrange(0, k));
            }
            return name.substring_char(0, i - 1).to_owned();
        }
        i -= 1;
    }
    proof {
        assert forall|c: int| !is_last_dot(name@, c) by {}
    }
    name.to_owned()
}

/// Gives the name of the executable for the source file at `hf_path`: the
/// file's name without its final extension. The path must have a final
/// component.
pub fn executable_name(hf_path: &str) -> (r: String)
    requires
        path_file_name(hf_path@) is Some,
    ensures
        r@ == without_extension(path_file_name(hf_path@)->0),
{
    match file_name_of(hf_path) {
        Some(name) => strip_extension(name.as_str()),
        None => String::new(),
    }
}

/// Gives the name of the executable for the source file at `hf_path`, or
/// `None` where the path has no final component.
pub fn try_executable_name(hf_path: &str) -> (r: Option<String>)
    ensures
        r is Some <==> path_file_name(hf_path@) is Some,
        r matches Some(name) ==> name@ == without_extension(path_file_name(hf_path@)->0),
{
    match file_name_of(hf_path) {
        Some(_) => Some(executable_name(hf_path)),
        None => None,
    }
}

/// A command for the system's linker driver.
#[derive(Debug)]
pub struct LinkCommand {
    pub program: String,
    pub args: Vec<String>,
}

/// The texts of a vector of strings.
pub open spec fn texts(args: Seq<String>) -> Seq<Seq<char>> {
    Seq::new(args.len(), |i: int| args[i]@)
}

/// The arguments that link `object` into `executable`: the object file,
/// `-o` and the executable, then `-target` and the triple where one is
/// given, then `-s` where symbols are to be stripped.
pub open spec fn link_args(
    object: Seq<char>,
    executable: Seq<char>,
    target: Option<Seq<char>>,
    strip: bool,
) -> Seq<Seq<char>> {
    seq![object, "-o"@, executable] + match target {
        Some(triple) => seq!["-target"@, triple],
        None => Seq::empty(),
    } + if strip {
        seq!["-s"@]
    } else {
        Seq::empty()
    }
}

/// The target triple as the contracts write it.
pub open spec fn triple_text(target: Option<String>) -> Option<Seq<char>> {
    match target {
        Some(t) => Some(t@),
        None => None,
    }
}

/// Builds the command that links the object file into an executable. The
/// command is not run here.
pub fn link_object_file(object_file_path: &str, executable_path: &str, target_triple: Option<String>, strip: bool) -> (r:
    LinkCommand)
    ensures
        r.program@ == "clang"@,
        texts(r.args@) == link_args(object_file_path@, executable_path@, triple_text(target_triple), strip),
{
    let mut args: Vec<String> = Vec::new();
    args.push(object_file_path.to_owned());
    args.push("-o".to_owned());
    args.push(executable_path.to_owned());
    match target_triple {
        Some(triple) => {
            args.push("-target".to_owned());
            args.push(triple);
        },
        None => {},
    }
    if strip {
        args.push("-s".to_owned());
    }
    let r = LinkCommand { program: "clang".to_owned(), args };
    proof {
        assert(texts(r.args@) =~= link_args(object_file_path@, executable_path@, triple_text(target_triple), strip));
    }
    r
}

/// Tells whether the linker succeeded, from its exit code; `None` stands
/// for a linker that was ended by a signal.
pub fn link_succeeded(exit_code: Option<i32>) -> (r: bool)
    ensures
        r == (exit_code == Some(0i32)),
{
    match exit_code {
        Some(code) => code == 0,
        None => false,
    }
}

} // verus!
