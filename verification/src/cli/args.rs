//! The command line of the tool and where its outputs go.
use crate::cli::path::{
    chars_of, ends_with_sep, file_name, has_file_name, has_file_name_exec, last_bounds_exec,
    lemma_file_name_of_push, lemma_last_component_bounds,
    lemma_parent_of_with_file_name, lemma_stem_before_dot, lemma_stem_no_sep, no_sep, parent, parent_end_exec, plain_name, push,
    stem_end_exec, stem_of, with_file_name,
};
use vstd::prelude::*;

verus! {

/// Fast PDF compression tool - easier and faster than ghostscript.
pub struct Cli {
    pub command: Commands,
}

/// The two things the tool does.
pub enum Commands {
    /// Compress one or several PDF documents.
    Press {
        /// Input files.
        input: Vec<String>,
        /// Output file or directory (defaults to `<input>_compressed.pdf`).
        output: Option<String>,
        /// Target quality for lossy image compression.
        quality: u8,
        /// Print a size comparison for each document.
        verbose: bool,
    },
    /// Merge several PDF documents into one, in the order given.
    Merge {
        /// Input files (at least two; order matters).
        input: Vec<String>,
        /// Output file or directory (defaults to `merged.pdf`).
        output: Option<String>,
        /// Compress the images of the merged document.
        compress: bool,
    },
}

/// Why a command line is refused.
#[derive(Debug, PartialEq, Eq)]
pub enum CliError {
    /// Several documents are compressed but `-o` does not name a directory.
    OutputMustBeDirectory,
}

/// The quality that compression uses when none is given.
pub const DEFAULT_QUALITY: u8 = 80;

/// The view of an optional path.
pub open spec fn opt_view(o: Option<String>) -> Option<Seq<char>> {
    match o {
        Some(s) => Some(s@),
        None => None,
    }
}

/// An output that names a directory: the file system says so, or it ends
/// with a separator.
pub open spec fn names_directory(out: Seq<char>, out_is_dir: bool) -> bool {
    out_is_dir || ends_with_sep(out)
}

/// The name of the compressed copy of `input`: its stem and `_compressed.pdf`.
pub open spec fn compressed_name(input: Seq<char>) -> Seq<char> {
    stem_of(file_name(input).unwrap()) + "_compressed.pdf"@
}

/// Where the compressed copy of `input` goes.
pub open spec fn press_output(
    input: Seq<char>,
    output: Option<Seq<char>>,
    output_is_dir: bool,
) -> Seq<char> {
    match output {
        Some(o) => if names_directory(o, output_is_dir) {
            push(o, compressed_name(input))
        } else {
            o
        },
        None => with_file_name(input, compressed_name(input)),
    }
}

/// Compressing `input` needs its file name: when no plain output file is given.
pub open spec fn press_needs_file_name(output: Option<Seq<char>>, output_is_dir: bool) -> bool {
    match output {
        Some(o) => names_directory(o, output_is_dir),
        None => true,
    }
}

/// The name a merged document gets when no output file is given, whether
/// or not its images are compressed.
pub open spec fn merge_default_name() -> Seq<char> {
    "merged.pdf"@
}

/// Where a merged document goes.
pub open spec fn merge_output(output: Option<Seq<char>>, output_is_dir: bool) -> Seq<char> {
    match output {
        Some(o) => if names_directory(o, output_is_dir) {
            push(o, merge_default_name())
        } else {
            o
        },
        None => merge_default_name(),
    }
}

/// The output path for compressing `file_path`.
///
/// With `-o` naming a directory (`output_is_dir`, as the file system tells,
/// or a trailing `/`), the result is `<dir>/<stem>_compressed.pdf`; with `-o`
/// naming a file, it is that file; without `-o`, it is
/// `<stem>_compressed.pdf` beside the input.
pub fn resolve_press_path_output(file_path: &String, output: &Option<String>, output_is_dir: bool) -> (r:
    String)
    requires
        press_needs_file_name(opt_view(*output), output_is_dir) ==> has_file_name(file_path@),
    ensures
        r@ == press_output(file_path@, opt_view(*output), output_is_dir),
{
    match output {
        Some(path) => {
            if output_is_dir || ends_with_sep_exec(path) {
                let name = compressed_name_exec(file_path);
                push_exec(path.as_str(), name.as_str())
            } else {
                path.clone()
            }
        },
        None => {
            let name = compressed_name_exec(file_path);
            with_file_name_exec(file_path, name.as_str())
        },
    }
}

/// The output path for a merged document: `merged.pdf` in the current
/// directory or in the directory that `-o` names, or the file that `-o`
/// names. Whether the merged document's images are compressed (`compress`)
/// does not change it.
pub fn resolve_merge_path_output(output: &Option<String>, output_is_dir: bool, compress: bool) -> (r:
    String)
    ensures
        r@ == merge_output(opt_view(*output), output_is_dir),
{
    let default_name = "merged.pdf";
    match output {
        Some(path) => {
            if output_is_dir || ends_with_sep_exec(path) {
                push_exec(path.as_str(), default_name)
            } else {
                path.clone()
            }
        },
        None => String::from_str(default_name),
    }
}

/// Several inputs need an output directory, if an output is given at all.
pub fn check_press_output(input_count: usize, output: &Option<String>, output_is_dir: bool) -> (r:
    Result<(), CliError>)
    ensures
        r is Err <==> (input_count > 1 && match opt_view(*output) {
            Some(o) => !names_directory(o, output_is_dir),
            None => false,
        }),
{
    if input_count > 1 {
        match output {
            Some(path) => {
                if !output_is_dir && !ends_with_sep_exec(path) {
                    return Err(CliError::OutputMustBeDirectory);
                }
            },
            None => {},
        }
    }
    Ok(())
}

/// The directories to create before writing to `output`: its parent, when
/// that is not empty, and `output` itself when it ends with a separator.
pub fn output_dirs_to_create(output: &String) -> (r: Vec<String>)
    ensures
        r@.map_values(|s: String| s@) == (match parent(output@) {
            Some(q) => if q.len() > 0 {
                seq![q]
            } else {
                Seq::empty()
            },
            None => Seq::empty(),
        }) + (if ends_with_sep(output@) {
            seq![output@]
        } else {
            Seq::empty()
        }),
{
    let mut r: Vec<String> = Vec::new();
    let p = chars_of(output.as_str());
    match parent_end_exec(&p) {
        Some(pe) => {
            if pe > 0 {
                r.push(String::from_str(output.as_str().substring_char(0, pe)));
            }
        },
        None => {},
    }
    if ends_with_sep_exec(output) {
        r.push(output.clone());
    }
    assert(r@.map_values(|s: String| s@) =~= (match parent(output@) {
        Some(q) => if q.len() > 0 {
            seq![q]
        } else {
            Seq::empty()
        },
        None => Seq::empty(),
    }) + (if ends_with_sep(output@) {
        seq![output@]
    } else {
        Seq::empty()
    }));
    r
}

// ---------------------------------------------------------------------------
// Laws.

/// The name of a compressed copy is a plain file name: no separator, and
/// neither `.` nor `..`.
pub proof fn lemma_compressed_name_is_plain(input: Seq<char>)
    requires
        has_file_name(input),
    ensures
        plain_name(compressed_name(input)),
{
    reveal_strlit("_compressed.pdf");
    lemma_last_component_bounds(input);
    let n = file_name(input).unwrap();
    assert(no_sep(n));
    let stem = stem_of(n);
    lemma_stem_no_sep(n);
    let c = compressed_name(input);
    assert(c == stem + "_compressed.pdf"@);
    assert(no_sep(c)) by {
        assert forall|i: int| 0 <= i < c.len() implies c[i] != '/' by {
            if i >= stem.len() {
                assert(c[i] == "_compressed.pdf"@[i - stem.len()]);
            }
        }
    }
}

/// Without `-o`, or with `-o` naming a directory, the compressed copy of a
/// document is named after it: `<stem>_compressed.pdf`.
pub proof fn law_press_output_file_name(
    input: Seq<char>,
    output: Option<Seq<char>>,
    output_is_dir: bool,
)
    requires
        press_needs_file_name(output, output_is_dir),
        has_file_name(input),
    ensures
        file_name(press_output(input, output, output_is_dir)) == Some(compressed_name(input)),
{
    lemma_compressed_name_is_plain(input);
    match output {
        Some(o) => lemma_file_name_of_push(o, compressed_name(input)),
        None => lemma_file_name_of_push(parent(input).unwrap(), compressed_name(input)),
    }
}

/// Without `-o`, the compressed copy of a document is written beside it: both
/// have the same parent directory.
pub proof fn law_press_output_beside_input(input: Seq<char>)
    requires
        has_file_name(input),
    ensures
        parent(press_output(input, None, false)) == parent(input),
{
    lemma_compressed_name_is_plain(input);
    lemma_parent_of_with_file_name(input, compressed_name(input));
}

/// Without `-o`, the compressed copy of a document never takes its place:
/// it has another file name, so it is another path.
pub proof fn law_press_output_keeps_input(input: Seq<char>)
    requires
        has_file_name(input),
    ensures
        file_name(press_output(input, None, false)) != file_name(input),
        press_output(input, None, false) != input,
{
    reveal_strlit("_compressed.pdf");
    law_press_output_file_name(input, None, false);
    let n = file_name(input).unwrap();
    let c = compressed_name(input);
    lemma_stem_before_dot(n);
    let k = stem_of(n).len();
    if stem_of(n) != n {
        assert(c[k as int] == '_');
        assert(n[k as int] == '.');
    }
    assert(c != n);
}

/// With `-o` naming a file, the compressed copy goes to exactly that file.
pub proof fn law_press_output_explicit_file(input: Seq<char>, o: Seq<char>)
    requires
        !ends_with_sep(o),
    ensures
        press_output(input, Some(o), false) == o,
{
}

/// Without `-o`, or with `-o` naming a directory, the merged document is
/// named `merged.pdf`.
pub proof fn law_merge_output_file_name(output: Option<Seq<char>>, output_is_dir: bool)
    requires
        match output {
            Some(o) => names_directory(o, output_is_dir),
            None => true,
        },
    ensures
        file_name(merge_output(output, output_is_dir)) == Some(merge_default_name()),
{
    reveal_strlit("merged.pdf");
    let n = merge_default_name();
    assert(plain_name(n));
    match output {
        Some(o) => lemma_file_name_of_push(o, n),
        None => {
            lemma_file_name_of_push(Seq::empty(), n);
            assert(push(Seq::<char>::empty(), n) =~= n);
        },
    }
}

// ---------------------------------------------------------------------------
// Helpers.

fn ends_with_sep_exec(s: &String) -> (r: bool)
    ensures
        r == ends_with_sep(s@),
{
    let n = s.as_str().unicode_len();
    n > 0 && s.as_str().get_char(n - 1) == '/'
}

/// `base` extended by `name`, as `push` says.
fn push_exec(base: &str, name: &str) -> (r: String)
    ensures
        r@ == push(base@, name@),
{
    let nb = base.unicode_len();
    let nn = name.unicode_len();
    if nn > 0 && name.get_char(0) == '/' {
        String::from_str(name)
    } else if nb > 0 && base.get_char(nb - 1) != '/' {
        let mut r = String::from_str(base);
        proof {
            reveal_strlit("/");
        }
        r.append("/");
        r.append(name);
        r
    } else {
        let mut r = String::from_str(base);
        r.append(name);
        r
    }
}

/// `<stem>_compressed.pdf` for a path that has a file name.
fn compressed_name_exec(file_path: &String) -> (r: String)
    requires
        has_file_name(file_path@),
    ensures
        r@ == compressed_name(file_path@),
{
    let p = chars_of(file_path.as_str());
    let (s, e) = last_bounds_exec(&p);
    proof {
        lemma_last_component_bounds(p@);
    }
    let se = stem_end_exec(&p, s, e);
    let mut r = String::from_str(file_path.as_str().substring_char(s, se));
    r.append("_compressed.pdf");
    r
}

/// The path with its file name replaced by `name`, as `with_file_name` says.
fn with_file_name_exec(path: &String, name: &str) -> (r: String)
    ensures
        r@ == with_file_name(path@, name@),
{
    let p = chars_of(path.as_str());
    if has_file_name_exec(&p) {
        let pe = parent_end_exec(&p);
        match pe {
            Some(pe) => push_exec(path.as_str().substring_char(0, pe), name),
            None => {
                assert(false);
                String::new()
            },
        }
    } else {
        push_exec(path.as_str(), name)
    }
}

} // verus!
