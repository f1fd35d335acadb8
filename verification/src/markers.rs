//! Comment markers, and splitting a line into its prefix (indentation,
//! comment marker and one space) and its content.
use vstd::prelude::*;

use crate::text::{
    all_whitespace, chars_between, chars_of, is_whitespace, lemma_trim_start_is_suffix,
    occurs_at, seqs_of, skip_leading_whitespace, spec_is_whitespace, str_eq, string_of,
    trim_start,
};

verus! {

/// Known comment markers for a given file extension.
pub struct CommentMarkers {
    /// Line comment markers, ordered longest-first (e.g., `///` before `//`).
    pub line: Vec<&'static str>,
}

impl CommentMarkers {
    /// The markers as texts, in the order they are tried.
    pub open spec fn texts(&self) -> Seq<Seq<char>> {
        self.line@.map_values(|m: &'static str| m@)
    }
}

/// File extensions of C-family languages.
pub open spec fn spec_is_c_family_extension(ext: Seq<char>) -> bool {
    ext == "c"@
    || ext == "cpp"@
    || ext == "cc"@
    || ext == "cxx"@
    || ext == "h"@
    || ext == "hpp"@
    || ext == "hxx"@
    || ext == "cs"@
    || ext == "java"@
    || ext == "js"@
    || ext == "jsx"@
    || ext == "ts"@
    || ext == "tsx"@
    || ext == "go"@
    || ext == "swift"@
    || ext == "scala"@
    || ext == "kt"@
    || ext == "kts"@
    || ext == "d"@
    || ext == "dart"@
    || ext == "zig"@
    || ext == "v"@
    || ext == "sv"@
    || ext == "groovy"@
    || ext == "gradle"@
    || ext == "php"@
    || ext == "m"@
    || ext == "mm"@
    || ext == "proto"@
    || ext == "jsonc"@
    || ext == "css"@
    || ext == "scss"@
    || ext == "less"@
    || ext == "sass"@
}

fn is_c_family_extension(ext: &str) -> (r: bool)
    ensures
        r == spec_is_c_family_extension(ext@),
{
    str_eq(ext, "c")
        || str_eq(ext, "cpp")
        || str_eq(ext, "cc")
        || str_eq(ext, "cxx")
        || str_eq(ext, "h")
        || str_eq(ext, "hpp")
        || str_eq(ext, "hxx")
        || str_eq(ext, "cs")
        || str_eq(ext, "java")
        || str_eq(ext, "js")
        || str_eq(ext, "jsx")
        || str_eq(ext, "ts")
        || str_eq(ext, "tsx")
        || str_eq(ext, "go")
        || str_eq(ext, "swift")
        || str_eq(ext, "scala")
        || str_eq(ext, "kt")
        || str_eq(ext, "kts")
        || str_eq(ext, "d")
        || str_eq(ext, "dart")
        || str_eq(ext, "zig")
        || str_eq(ext, "v")
        || str_eq(ext, "sv")
        || str_eq(ext, "groovy")
        || str_eq(ext, "gradle")
        || str_eq(ext, "php")
        || str_eq(ext, "m")
        || str_eq(ext, "mm")
        || str_eq(ext, "proto")
        || str_eq(ext, "jsonc")
        || str_eq(ext, "css")
        || str_eq(ext, "scss")
        || str_eq(ext, "less")
        || str_eq(ext, "sass")
}

/// File extensions of languages commented with `#`.
pub open spec fn spec_is_hash_extension(ext: Seq<char>) -> bool {
    ext == "py"@
    || ext == "pyi"@
    || ext == "rb"@
    || ext == "sh"@
    || ext == "bash"@
    || ext == "zsh"@
    || ext == "fish"@
    || ext == "yml"@
    || ext == "yaml"@
    || ext == "toml"@
    || ext == "cfg"@
    || ext == "ini"@
    || ext == "conf"@
    || ext == "pl"@
    || ext == "pm"@
    || ext == "r"@
    || ext == "jl"@
    || ext == "gd"@
    || ext == "nim"@
    || ext == "cr"@
    || ext == "dockerfile"@
    || ext == "cmake"@
    || ext == "makefile"@
    || ext == "mk"@
    || ext == "tf"@
    || ext == "hcl"@
    || ext == "nix"@
    || ext == "ps1"@
    || ext == "psm1"@
    || ext == "elixir"@
    || ext == "ex"@
    || ext == "exs"@
}

fn is_hash_extension(ext: &str) -> (r: bool)
    ensures
        r == spec_is_hash_extension(ext@),
{
    str_eq(ext, "py")
        || str_eq(ext, "pyi")
        || str_eq(ext, "rb")
        || str_eq(ext, "sh")
        || str_eq(ext, "bash")
        || str_eq(ext, "zsh")
        || str_eq(ext, "fish")
        || str_eq(ext, "yml")
        || str_eq(ext, "yaml")
        || str_eq(ext, "toml")
        || str_eq(ext, "cfg")
        || str_eq(ext, "ini")
        || str_eq(ext, "conf")
        || str_eq(ext, "pl")
        || str_eq(ext, "pm")
        || str_eq(ext, "r")
        || str_eq(ext, "jl")
        || str_eq(ext, "gd")
        || str_eq(ext, "nim")
        || str_eq(ext, "cr")
        || str_eq(ext, "dockerfile")
        || str_eq(ext, "cmake")
        || str_eq(ext, "makefile")
        || str_eq(ext, "mk")
        || str_eq(ext, "tf")
        || str_eq(ext, "hcl")
        || str_eq(ext, "nix")
        || str_eq(ext, "ps1")
        || str_eq(ext, "psm1")
        || str_eq(ext, "elixir")
        || str_eq(ext, "ex")
        || str_eq(ext, "exs")
}

/// File extensions of languages commented with `--`.
pub open spec fn spec_is_double_dash_extension(ext: Seq<char>) -> bool {
    ext == "lua"@
    || ext == "hs"@
    || ext == "sql"@
    || ext == "ada"@
    || ext == "adb"@
    || ext == "ads"@
    || ext == "elm"@
    || ext == "vhdl"@
}

fn is_double_dash_extension(ext: &str) -> (r: bool)
    ensures
        r == spec_is_double_dash_extension(ext@),
{
    str_eq(ext, "lua")
        || str_eq(ext, "hs")
        || str_eq(ext, "sql")
        || str_eq(ext, "ada")
        || str_eq(ext, "adb")
        || str_eq(ext, "ads")
        || str_eq(ext, "elm")
        || str_eq(ext, "vhdl")
}

/// File extensions of Lisp-family languages and assembly.
pub open spec fn spec_is_lisp_extension(ext: Seq<char>) -> bool {
    ext == "el"@
    || ext == "lisp"@
    || ext == "clj"@
    || ext == "cljs"@
    || ext == "scm"@
    || ext == "rkt"@
    || ext == "asm"@
    || ext == "s"@
}

fn is_lisp_extension(ext: &str) -> (r: bool)
    ensures
        r == spec_is_lisp_extension(ext@),
{
    str_eq(ext, "el")
        || str_eq(ext, "lisp")
        || str_eq(ext, "clj")
        || str_eq(ext, "cljs")
        || str_eq(ext, "scm")
        || str_eq(ext, "rkt")
        || str_eq(ext, "asm")
        || str_eq(ext, "s")
}

/// File extensions of batch scripts.
pub open spec fn spec_is_batch_extension(ext: Seq<char>) -> bool {
    ext == "bat"@
    || ext == "cmd"@
}

fn is_batch_extension(ext: &str) -> (r: bool)
    ensures
        r == spec_is_batch_extension(ext@),
{
    str_eq(ext, "bat")
        || str_eq(ext, "cmd")
}

/// File extensions of TeX and Erlang.
pub open spec fn spec_is_percent_extension(ext: Seq<char>) -> bool {
    ext == "tex"@
    || ext == "sty"@
    || ext == "cls"@
    || ext == "bib"@
    || ext == "dtx"@
    || ext == "ins"@
    || ext == "erl"@
    || ext == "hrl"@
}

fn is_percent_extension(ext: &str) -> (r: bool)
    ensures
        r == spec_is_percent_extension(ext@),
{
    str_eq(ext, "tex")
        || str_eq(ext, "sty")
        || str_eq(ext, "cls")
        || str_eq(ext, "bib")
        || str_eq(ext, "dtx")
        || str_eq(ext, "ins")
        || str_eq(ext, "erl")
        || str_eq(ext, "hrl")
}

/// File extensions of Fortran.
pub open spec fn spec_is_fortran_extension(ext: Seq<char>) -> bool {
    ext == "f"@
    || ext == "f90"@
    || ext == "f95"@
    || ext == "f03"@
    || ext == "f08"@
    || ext == "for"@
}

fn is_fortran_extension(ext: &str) -> (r: bool)
    ensures
        r == spec_is_fortran_extension(ext@),
{
    str_eq(ext, "f")
        || str_eq(ext, "f90")
        || str_eq(ext, "f95")
        || str_eq(ext, "f03")
        || str_eq(ext, "f08")
        || str_eq(ext, "for")
}

/// The comment markers used for files with extension `ext` (lower case).
pub open spec fn spec_markers_for_extension(ext: Seq<char>) -> Seq<Seq<char>> {
    if ext == "rs"@ {
        seq!["///"@, "//!"@, "//"@]
    } else if spec_is_c_family_extension(ext) {
        seq!["///"@, "//"@]
    } else if spec_is_hash_extension(ext) {
        seq!["##"@, "#"@]
    } else if spec_is_double_dash_extension(ext) {
        seq!["--"@]
    } else if spec_is_lisp_extension(ext) {
        seq![";;"@, ";"@]
    } else if spec_is_batch_extension(ext) {
        seq!["rem "@, "::"@]
    } else if spec_is_percent_extension(ext) {
        seq!["%"@]
    } else if spec_is_fortran_extension(ext) {
        seq!["!"@]
    } else {
        seq!["///"@, "//"@, "##"@, "--"@, ";;"@, "#"@, ";"@, "%"@, "!"@]
    }
}

/// Every marker list is ordered longest first.
pub proof fn lemma_markers_longest_first(ext: Seq<char>)
    ensures
        forall|i: int, j: int|
            0 <= i < j < spec_markers_for_extension(ext).len() ==> #[trigger] spec_markers_for_extension(
                ext,
            )[i].len() >= #[trigger] spec_markers_for_extension(ext)[j].len(),
{
    reveal_strlit("///");
    reveal_strlit("//!");
    reveal_strlit("//");
    reveal_strlit("##");
    reveal_strlit("#");
    reveal_strlit("--");
    reveal_strlit(";;");
    reveal_strlit(";");
    reveal_strlit("rem ");
    reveal_strlit("::");
    reveal_strlit("%");
    reveal_strlit("!");
}

/// Each extension of the table gets the markers of its row: `rs` the Rust
/// doc and line comments; the C family `///` and `//`; the languages
/// commented with `#` `##` and `#`; those commented with `--` that marker;
/// the Lisp family and assembly `;;` and `;`; batch scripts `rem ` and `::`;
/// TeX and Erlang `%`; Fortran `!`.
#[verifier::rlimit(60)]
pub proof fn lemma_markers_of_listed_extensions(ext: Seq<char>)
    ensures
        ext == "rs"@ ==> spec_markers_for_extension(ext) == seq!["///"@, "//!"@, "//"@],
        (ext == "c"@ || ext == "cpp"@ || ext == "cc"@ || ext == "cxx"@ || ext == "h"@
            || ext == "hpp"@ || ext == "hxx"@ || ext == "cs"@ || ext == "java"@ || ext == "js"@
            || ext == "jsx"@ || ext == "ts"@ || ext == "tsx"@ || ext == "go"@ || ext == "swift"@
            || ext == "scala"@ || ext == "kt"@ || ext == "kts"@ || ext == "d"@ || ext == "dart"@
            || ext == "zig"@ || ext == "v"@ || ext == "sv"@ || ext == "groovy"@
            || ext == "gradle"@ || ext == "php"@ || ext == "m"@ || ext == "mm"@ || ext == "proto"@
            || ext == "jsonc"@ || ext == "css"@ || ext == "scss"@ || ext == "less"@
            || ext == "sass"@)
            ==> spec_markers_for_extension(ext) == seq!["///"@, "//"@],
        (ext == "py"@ || ext == "pyi"@ || ext == "rb"@ || ext == "sh"@ || ext == "bash"@
            || ext == "zsh"@ || ext == "fish"@ || ext == "yml"@ || ext == "yaml"@
            || ext == "toml"@ || ext == "cfg"@ || ext == "ini"@ || ext == "conf"@ || ext == "pl"@
            || ext == "pm"@ || ext == "r"@ || ext == "jl"@ || ext == "gd"@ || ext == "nim"@
            || ext == "cr"@ || ext == "dockerfile"@ || ext == "cmake"@ || ext == "makefile"@
            || ext == "mk"@ || ext == "tf"@ || ext == "hcl"@ || ext == "nix"@ || ext == "ps1"@
            || ext == "psm1"@ || ext == "elixir"@ || ext == "ex"@ || ext == "exs"@)
            ==> spec_markers_for_extension(ext) == seq!["##"@, "#"@],
        (ext == "lua"@ || ext == "hs"@ || ext == "sql"@ || ext == "ada"@ || ext == "adb"@
            || ext == "ads"@ || ext == "elm"@ || ext == "vhdl"@)
            ==> spec_markers_for_extension(ext) == seq!["--"@],
        (ext == "el"@ || ext == "lisp"@ || ext == "clj"@ || ext == "cljs"@ || ext == "scm"@
            || ext == "rkt"@ || ext == "asm"@ || ext == "s"@)
            ==> spec_markers_for_extension(ext) == seq![";;"@, ";"@],
        (ext == "bat"@ || ext == "cmd"@)
            ==> spec_markers_for_extension(ext) == seq!["rem "@, "::"@],
        (ext == "tex"@ || ext == "sty"@ || ext == "cls"@ || ext == "bib"@ || ext == "dtx"@
            || ext == "ins"@ || ext == "erl"@ || ext == "hrl"@)
            ==> spec_markers_for_extension(ext) == seq!["%"@],
        (ext == "f"@ || ext == "f90"@ || ext == "f95"@ || ext == "f03"@ || ext == "f08"@
            || ext == "for"@)
            ==> spec_markers_for_extension(ext) == seq!["!"@],
{
    // The listed extensions are distinct texts.
    reveal_strlit("ada");
    assert("ada"@.len() == 3 && "ada"@[0] == 'a' && "ada"@[1] == 'd' && "ada"@[2] == 'a');
    reveal_strlit("adb");
    assert("adb"@.len() == 3 && "adb"@[0] == 'a' && "adb"@[1] == 'd' && "adb"@[2] == 'b');
    reveal_strlit("ads");
    assert("ads"@.len() == 3 && "ads"@[0] == 'a' && "ads"@[1] == 'd' && "ads"@[2] == 's');
    reveal_strlit("asm");
    assert("asm"@.len() == 3 && "asm"@[0] == 'a' && "asm"@[1] == 's' && "asm"@[2] == 'm');
    reveal_strlit("bash");
    assert("bash"@.len() == 4 && "bash"@[0] == 'b' && "bash"@[1] == 'a' && "bash"@[2] == 's' && "bash"@[3] == 'h');
    reveal_strlit("bat");
    assert("bat"@.len() == 3 && "bat"@[0] == 'b' && "bat"@[1] == 'a' && "bat"@[2] == 't');
    reveal_strlit("bib");
    assert("bib"@.len() == 3 && "bib"@[0] == 'b' && "bib"@[1] == 'i' && "bib"@[2] == 'b');
    reveal_strlit("c");
    assert("c"@.len() == 1 && "c"@[0] == 'c');
    reveal_strlit("cc");
    assert("cc"@.len() == 2 && "cc"@[0] == 'c' && "cc"@[1] == 'c');
    reveal_strlit("cfg");
    assert("cfg"@.len() == 3 && "cfg"@[0] == 'c' && "cfg"@[1] == 'f' && "cfg"@[2] == 'g');
    reveal_strlit("clj");
    assert("clj"@.len() == 3 && "clj"@[0] == 'c' && "clj"@[1] == 'l' && "clj"@[2] == 'j');
    reveal_strlit("cljs");
    assert("cljs"@.len() == 4 && "cljs"@[0] == 'c' && "cljs"@[1] == 'l' && "cljs"@[2] == 'j' && "cljs"@[3] == 's');
    reveal_strlit("cls");
    assert("cls"@.len() == 3 && "cls"@[0] == 'c' && "cls"@[1] == 'l' && "cls"@[2] == 's');
    reveal_strlit("cmake");
    assert("cmake"@.len() == 5 && "cmake"@[0] == 'c' && "cmake"@[1] == 'm' && "cmake"@[2] == 'a' && "cmake"@[3] == 'k' && "cmake"@[4] == 'e');
    reveal_strlit("cmd");
    assert("cmd"@.len() == 3 && "cmd"@[0] == 'c' && "cmd"@[1] == 'm' && "cmd"@[2] == 'd');
    reveal_strlit("conf");
    assert("conf"@.len() == 4 && "conf"@[0] == 'c' && "conf"@[1] == 'o' && "conf"@[2] == 'n' && "conf"@[3] == 'f');
    reveal_strlit("cpp");
    assert("cpp"@.len() == 3 && "cpp"@[0] == 'c' && "cpp"@[1] == 'p' && "cpp"@[2] == 'p');
    reveal_strlit("cr");
    assert("cr"@.len() == 2 && "cr"@[0] == 'c' && "cr"@[1] == 'r');
    reveal_strlit("cs");
    assert("cs"@.len() == 2 && "cs"@[0] == 'c' && "cs"@[1] == 's');
    reveal_strlit("css");
    assert("css"@.len() == 3 && "css"@[0] == 'c' && "css"@[1] == 's' && "css"@[2] == 's');
    reveal_strlit("cxx");
    assert("cxx"@.len() == 3 && "cxx"@[0] == 'c' && "cxx"@[1] == 'x' && "cxx"@[2] == 'x');
    reveal_strlit("d");
    assert("d"@.len() == 1 && "d"@[0] == 'd');
    reveal_strlit("dart");
    assert("dart"@.len() == 4 && "dart"@[0] == 'd' && "dart"@[1] == 'a' && "dart"@[2] == 'r' && "dart"@[3] == 't');
    reveal_strlit("dockerfile");
    assert("dockerfile"@.len() == 10 && "dockerfile"@[0] == 'd' && "dockerfile"@[1] == 'o' && "dockerfile"@[2] == 'c' && "dockerfile"@[3] == 'k' && "dockerfile"@[4] == 'e' && "dockerfile"@[5] == 'r' && "dockerfile"@[6] == 'f' && "dockerfile"@[7] == 'i' && "dockerfile"@[8] == 'l' && "dockerfile"@[9] == 'e');
    reveal_strlit("dtx");
    assert("dtx"@.len() == 3 && "dtx"@[0] == 'd' && "dtx"@[1] == 't' && "dtx"@[2] == 'x');
    reveal_strlit("el");
    assert("el"@.len() == 2 && "el"@[0] == 'e' && "el"@[1] == 'l');
    reveal_strlit("elixir");
    assert("elixir"@.len() == 6 && "elixir"@[0] == 'e' && "elixir"@[1] == 'l' && "elixir"@[2] == 'i' && "elixir"@[3] == 'x' && "elixir"@[4] == 'i' && "elixir"@[5] == 'r');
    reveal_strlit("elm");
    assert("elm"@.len() == 3 && "elm"@[0] == 'e' && "elm"@[1] == 'l' && "elm"@[2] == 'm');
    reveal_strlit("erl");
    assert("erl"@.len() == 3 && "erl"@[0] == 'e' && "erl"@[1] == 'r' && "erl"@[2] == 'l');
    reveal_strlit("ex");
    assert("ex"@.len() == 2 && "ex"@[0] == 'e' && "ex"@[1] == 'x');
    reveal_strlit("exs");
    assert("exs"@.len() == 3 && "exs"@[0] == 'e' && "exs"@[1] == 'x' && "exs"@[2] == 's');
    reveal_strlit("f");
    assert("f"@.len() == 1 && "f"@[0] == 'f');
    reveal_strlit("f03");
    assert("f03"@.len() == 3 && "f03"@[0] == 'f' && "f03"@[1] == '0' && "f03"@[2] == '3');
    reveal_strlit("f08");
    assert("f08"@.len() == 3 && "f08"@[0] == 'f' && "f08"@[1] == '0' && "f08"@[2] == '8');
    reveal_strlit("f90");
    assert("f90"@.len() == 3 && "f90"@[0] == 'f' && "f90"@[1] == '9' && "f90"@[2] == '0');
    reveal_strlit("f95");
    assert("f95"@.len() == 3 && "f95"@[0] == 'f' && "f95"@[1] == '9' && "f95"@[2] == '5');
    reveal_strlit("fish");
    assert("fish"@.len() == 4 && "fish"@[0] == 'f' && "fish"@[1] == 'i' && "fish"@[2] == 's' && "fish"@[3] == 'h');
    reveal_strlit("for");
    assert("for"@.len() == 3 && "for"@[0] == 'f' && "for"@[1] == 'o' && "for"@[2] == 'r');
    reveal_strlit("gd");
    assert("gd"@.len() == 2 && "gd"@[0] == 'g' && "gd"@[1] == 'd');
    reveal_strlit("go");
    assert("go"@.len() == 2 && "go"@[0] == 'g' && "go"@[1] == 'o');
    reveal_strlit("gradle");
    assert("gradle"@.len() == 6 && "gradle"@[0] == 'g' && "gradle"@[1] == 'r' && "gradle"@[2] == 'a' && "gradle"@[3] == 'd' && "gradle"@[4] == 'l' && "gradle"@[5] == 'e');
    reveal_strlit("groovy");
    assert("groovy"@.len() == 6 && "groovy"@[0] == 'g' && "groovy"@[1] == 'r' && "groovy"@[2] == 'o' && "groovy"@[3] == 'o' && "groovy"@[4] == 'v' && "groovy"@[5] == 'y');
    reveal_strlit("h");
    assert("h"@.len() == 1 && "h"@[0] == 'h');
    reveal_strlit("hcl");
    assert("hcl"@.len() == 3 && "hcl"@[0] == 'h' && "hcl"@[1] == 'c' && "hcl"@[2] == 'l');
    reveal_strlit("hpp");
    assert("hpp"@.len() == 3 && "hpp"@[0] == 'h' && "hpp"@[1] == 'p' && "hpp"@[2] == 'p');
    reveal_strlit("hrl");
    assert("hrl"@.len() == 3 && "hrl"@[0] == 'h' && "hrl"@[1] == 'r' && "hrl"@[2] == 'l');
    reveal_strlit("hs");
    assert("hs"@.len() == 2 && "hs"@[0] == 'h' && "hs"@[1] == 's');
    reveal_strlit("hxx");
    assert("hxx"@.len() == 3 && "hxx"@[0] == 'h' && "hxx"@[1] == 'x' && "hxx"@[2] == 'x');
    reveal_strlit("ini");
    assert("ini"@.len() == 3 && "ini"@[0] == 'i' && "ini"@[1] == 'n' && "ini"@[2] == 'i');
    reveal_strlit("ins");
    assert("ins"@.len() == 3 && "ins"@[0] == 'i' && "ins"@[1] == 'n' && "ins"@[2] == 's');
    reveal_strlit("java");
    assert("java"@.len() == 4 && "java"@[0] == 'j' && "java"@[1] == 'a' && "java"@[2] == 'v' && "java"@[3] == 'a');
    reveal_strlit("jl");
    assert("jl"@.len() == 2 && "jl"@[0] == 'j' && "jl"@[1] == 'l');
    reveal_strlit("js");
    assert("js"@.len() == 2 && "js"@[0] == 'j' && "js"@[1] == 's');
    reveal_strlit("jsonc");
    assert("jsonc"@.len() == 5 && "jsonc"@[0] == 'j' && "jsonc"@[1] == 's' && "jsonc"@[2] == 'o' && "jsonc"@[3] == 'n' && "jsonc"@[4] == 'c');
    reveal_strlit("jsx");
    assert("jsx"@.len() == 3 && "jsx"@[0] == 'j' && "jsx"@[1] == 's' && "jsx"@[2] == 'x');
    reveal_strlit("kt");
    assert("kt"@.len() == 2 && "kt"@[0] == 'k' && "kt"@[1] == 't');
    reveal_strlit("kts");
    assert("kts"@.len() == 3 && "kts"@[0] == 'k' && "kts"@[1] == 't' && "kts"@[2] == 's');
    reveal_strlit("less");
    assert("less"@.len() == 4 && "less"@[0] == 'l' && "less"@[1] == 'e' && "less"@[2] == 's' && "less"@[3] == 's');
    reveal_strlit("lisp");
    assert("lisp"@.len() == 4 && "lisp"@[0] == 'l' && "lisp"@[1] == 'i' && "lisp"@[2] == 's' && "lisp"@[3] == 'p');
    reveal_strlit("lua");
    assert("lua"@.len() == 3 && "lua"@[0] == 'l' && "lua"@[1] == 'u' && "lua"@[2] == 'a');
    reveal_strlit("m");
    assert("m"@.len() == 1 && "m"@[0] == 'm');
    reveal_strlit("makefile");
    assert("makefile"@.len() == 8 && "makefile"@[0] == 'm' && "makefile"@[1] == 'a' && "makefile"@[2] == 'k' && "makefile"@[3] == 'e' && "makefile"@[4] == 'f' && "makefile"@[5] == 'i' && "makefile"@[6] == 'l' && "makefile"@[7] == 'e');
    reveal_strlit("mk");
    assert("mk"@.len() == 2 && "mk"@[0] == 'm' && "mk"@[1] == 'k');
    reveal_strlit("mm");
    assert("mm"@.len() == 2 && "mm"@[0] == 'm' && "mm"@[1] == 'm');
    reveal_strlit("nim");
    assert("nim"@.len() == 3 && "nim"@[0] == 'n' && "nim"@[1] == 'i' && "nim"@[2] == 'm');
    reveal_strlit("nix");
    assert("nix"@.len() == 3 && "nix"@[0] == 'n' && "nix"@[1] == 'i' && "nix"@[2] == 'x');
    reveal_strlit("php");
    assert("php"@.len() == 3 && "php"@[0] == 'p' && "php"@[1] == 'h' && "php"@[2] == 'p');
    reveal_strlit("pl");
    assert("pl"@.len() == 2 && "pl"@[0] == 'p' && "pl"@[1] == 'l');
    reveal_strlit("pm");
    assert("pm"@.len() == 2 && "pm"@[0] == 'p' && "pm"@[1] == 'm');
    reveal_strlit("proto");
    assert("proto"@.len() == 5 && "proto"@[0] == 'p' && "proto"@[1] == 'r' && "proto"@[2] == 'o' && "proto"@[3] == 't' && "proto"@[4] == 'o');
    reveal_strlit("ps1");
    assert("ps1"@.len() == 3 && "ps1"@[0] == 'p' && "ps1"@[1] == 's' && "ps1"@[2] == '1');
    reveal_strlit("psm1");
    assert("psm1"@.len() == 4 && "psm1"@[0] == 'p' && "psm1"@[1] == 's' && "psm1"@[2] == 'm' && "psm1"@[3] == '1');
    reveal_strlit("py");
    assert("py"@.len() == 2 && "py"@[0] == 'p' && "py"@[1] == 'y');
    reveal_strlit("pyi");
    assert("pyi"@.len() == 3 && "pyi"@[0] == 'p' && "pyi"@[1] == 'y' && "pyi"@[2] == 'i');
    reveal_strlit("r");
    assert("r"@.len() == 1 && "r"@[0] == 'r');
    reveal_strlit("rb");
    assert("rb"@.len() == 2 && "rb"@[0] == 'r' && "rb"@[1] == 'b');
    reveal_strlit("rkt");
    assert("rkt"@.len() == 3 && "rkt"@[0] == 'r' && "rkt"@[1] == 'k' && "rkt"@[2] == 't');
    reveal_strlit("rs");
    assert("rs"@.len() == 2 && "rs"@[0] == 'r' && "rs"@[1] == 's');
    reveal_strlit("s");
    assert("s"@.len() == 1 && "s"@[0] == 's');
    reveal_strlit("sass");
    assert("sass"@.len() == 4 && "sass"@[0] == 's' && "sass"@[1] == 'a' && "sass"@[2] == 's' && "sass"@[3] == 's');
    reveal_strlit("scala");
    assert("scala"@.len() == 5 && "scala"@[0] == 's' && "scala"@[1] == 'c' && "scala"@[2] == 'a' && "scala"@[3] == 'l' && "scala"@[4] == 'a');
    reveal_strlit("scm");
    assert("scm"@.len() == 3 && "scm"@[0] == 's' && "scm"@[1] == 'c' && "scm"@[2] == 'm');
    reveal_strlit("scss");
    assert("scss"@.len() == 4 && "scss"@[0] == 's' && "scss"@[1] == 'c' && "scss"@[2] == 's' && "scss"@[3] == 's');
    reveal_strlit("sh");
    assert("sh"@.len() == 2 && "sh"@[0] == 's' && "sh"@[1] == 'h');
    reveal_strlit("sql");
    assert("sql"@.len() == 3 && "sql"@[0] == 's' && "sql"@[1] == 'q' && "sql"@[2] == 'l');
    reveal_strlit("sty");
    assert("sty"@.len() == 3 && "sty"@[0] == 's' && "sty"@[1] == 't' && "sty"@[2] == 'y');
    reveal_strlit("sv");
    assert("sv"@.len() == 2 && "sv"@[0] == 's' && "sv"@[1] == 'v');
    reveal_strlit("swift");
    assert("swift"@.len() == 5 && "swift"@[0] == 's' && "swift"@[1] == 'w' && "swift"@[2] == 'i' && "swift"@[3] == 'f' && "swift"@[4] == 't');
    reveal_strlit("tex");
    assert("tex"@.len() == 3 && "tex"@[0] == 't' && "tex"@[1] == 'e' && "tex"@[2] == 'x');
    reveal_strlit("tf");
    assert("tf"@.len() == 2 && "tf"@[0] == 't' && "tf"@[1] == 'f');
    reveal_strlit("toml");
    assert("toml"@.len() == 4 && "toml"@[0] == 't' && "toml"@[1] == 'o' && "toml"@[2] == 'm' && "toml"@[3] == 'l');
    reveal_strlit("ts");
    assert("ts"@.len() == 2 && "ts"@[0] == 't' && "ts"@[1] == 's');
    reveal_strlit("tsx");
    assert("tsx"@.len() == 3 && "tsx"@[0] == 't' && "tsx"@[1] == 's' && "tsx"@[2] == 'x');
    reveal_strlit("v");
    assert("v"@.len() == 1 && "v"@[0] == 'v');
    reveal_strlit("vhdl");
    assert("vhdl"@.len() == 4 && "vhdl"@[0] == 'v' && "vhdl"@[1] == 'h' && "vhdl"@[2] == 'd' && "vhdl"@[3] == 'l');
    reveal_strlit("yaml");
    assert("yaml"@.len() == 4 && "yaml"@[0] == 'y' && "yaml"@[1] == 'a' && "yaml"@[2] == 'm' && "yaml"@[3] == 'l');
    reveal_strlit("yml");
    assert("yml"@.len() == 3 && "yml"@[0] == 'y' && "yml"@[1] == 'm' && "yml"@[2] == 'l');
    reveal_strlit("zig");
    assert("zig"@.len() == 3 && "zig"@[0] == 'z' && "zig"@[1] == 'i' && "zig"@[2] == 'g');
    reveal_strlit("zsh");
    assert("zsh"@.len() == 3 && "zsh"@[0] == 'z' && "zsh"@[1] == 's' && "zsh"@[2] == 'h');
}

/// An extension that the table does not list gets every known marker, longest
/// first.
pub proof fn lemma_markers_of_other_extensions(ext: Seq<char>)
    requires
        !(ext == "rs"@ || ext == "c"@ || ext == "cpp"@ || ext == "cc"@ || ext == "cxx"@
            || ext == "h"@ || ext == "hpp"@ || ext == "hxx"@ || ext == "cs"@ || ext == "java"@
            || ext == "js"@ || ext == "jsx"@ || ext == "ts"@ || ext == "tsx"@ || ext == "go"@
            || ext == "swift"@ || ext == "scala"@ || ext == "kt"@ || ext == "kts"@ || ext == "d"@
            || ext == "dart"@ || ext == "zig"@ || ext == "v"@ || ext == "sv"@ || ext == "groovy"@
            || ext == "gradle"@ || ext == "php"@ || ext == "m"@ || ext == "mm"@ || ext == "proto"@
            || ext == "jsonc"@ || ext == "css"@ || ext == "scss"@ || ext == "less"@
            || ext == "sass"@ || ext == "py"@ || ext == "pyi"@ || ext == "rb"@ || ext == "sh"@
            || ext == "bash"@ || ext == "zsh"@ || ext == "fish"@ || ext == "yml"@
            || ext == "yaml"@ || ext == "toml"@ || ext == "cfg"@ || ext == "ini"@
            || ext == "conf"@ || ext == "pl"@ || ext == "pm"@ || ext == "r"@ || ext == "jl"@
            || ext == "gd"@ || ext == "nim"@ || ext == "cr"@ || ext == "dockerfile"@
            || ext == "cmake"@ || ext == "makefile"@ || ext == "mk"@ || ext == "tf"@
            || ext == "hcl"@ || ext == "nix"@ || ext == "ps1"@ || ext == "psm1"@
            || ext == "elixir"@ || ext == "ex"@ || ext == "exs"@ || ext == "lua"@ || ext == "hs"@
            || ext == "sql"@ || ext == "ada"@ || ext == "adb"@ || ext == "ads"@ || ext == "elm"@
            || ext == "vhdl"@ || ext == "el"@ || ext == "lisp"@ || ext == "clj"@ || ext == "cljs"@
            || ext == "scm"@ || ext == "rkt"@ || ext == "asm"@ || ext == "s"@ || ext == "bat"@
            || ext == "cmd"@ || ext == "tex"@ || ext == "sty"@ || ext == "cls"@ || ext == "bib"@
            || ext == "dtx"@ || ext == "ins"@ || ext == "erl"@ || ext == "hrl"@ || ext == "f"@
            || ext == "f90"@ || ext == "f95"@ || ext == "f03"@ || ext == "f08"@ || ext == "for"@),
    ensures
        spec_markers_for_extension(ext) == seq![
            "///"@,
            "//"@,
            "##"@,
            "--"@,
            ";;"@,
            "#"@,
            ";"@,
            "%"@,
            "!"@,
        ],
{
}

/// The comment markers for files with extension `ext`, longest first, so that
/// `///` is recognised before `//`.
pub fn comment_markers_for_extension(ext: &str) -> (m: CommentMarkers)
    ensures
        m.texts() == spec_markers_for_extension(ext@),
        forall|i: int, j: int|
            0 <= i < j < m.texts().len() ==> #[trigger] m.texts()[i].len()
                >= #[trigger] m.texts()[j].len(),
{
    proof {
        lemma_markers_longest_first(ext@);
    }
    let line: Vec<&'static str> = if str_eq(ext, "rs") {
        vec!["///", "//!", "//"]
    } else if is_c_family_extension(ext) {
        vec!["///", "//"]
    } else if is_hash_extension(ext) {
        vec!["##", "#"]
    } else if is_double_dash_extension(ext) {
        vec!["--"]
    } else if is_lisp_extension(ext) {
        vec![";;", ";"]
    } else if is_batch_extension(ext) {
        vec!["rem ", "::"]
    } else if is_percent_extension(ext) {
        vec!["%"]
    } else if is_fortran_extension(ext) {
        vec!["!"]
    } else {
        vec!["///", "//", "##", "--", ";;", "#", ";", "%", "!"]
    };
    let m = CommentMarkers { line };
    assert(m.texts() =~= spec_markers_for_extension(ext@));
    m
}

/// Detected prefix for a line: the full prefix string and the content after it.
#[derive(Debug)]
pub struct LinePrefix {
    /// The full prefix including leading whitespace, comment marker, and trailing space.
    pub prefix: String,
    /// The content after the prefix.
    pub content: String,
}

/// The index of the first marker, from `from` on, that `t` starts with.
pub open spec fn first_matching_marker(t: Seq<char>, markers: Seq<Seq<char>>, from: int) -> Option<
    int,
>
    decreases markers.len() - from,
{
    if 0 <= from < markers.len() {
        if markers[from].is_prefix_of(t) {
            Some(from)
        } else {
            first_matching_marker(t, markers, from + 1)
        }
    } else {
        None
    }
}

/// The prefix and the content of `line`: the prefix is the leading
/// whitespace, then the first marker that the rest starts with and one space
/// after it if there is one; without such a marker it is the leading
/// whitespace alone.  The content is what follows the prefix.
pub open spec fn spec_detect_prefix(line: Seq<char>, markers: Seq<Seq<char>>) -> (Seq<char>, Seq<char>) {
    let t = trim_start(line);
    let lead = line.subrange(0, line.len() - t.len());
    match first_matching_marker(t, markers, 0) {
        Some(k) => {
            let m = markers[k];
            let after = t.skip(m.len() as int);
            let sp: int = if after.len() > 0 && after[0] == ' ' {
                1
            } else {
                0
            };
            (lead + m + after.take(sp), after.skip(sp))
        },
        None => (lead, t),
    }
}

proof fn lemma_trim_start_split(lead: Seq<char>, rest: Seq<char>)
    requires
        all_whitespace(lead),
        rest.len() == 0 || !spec_is_whitespace(rest[0]),
    ensures
        trim_start(lead + rest) == rest,
    decreases lead.len(),
{
    if lead.len() == 0 {
        assert(lead + rest =~= rest);
    } else {
        let d = lead.drop_first();
        assert((lead + rest).drop_first() =~= d + rest);
        assert((lead + rest)[0] == lead[0]);
        lemma_trim_start_split(d, rest);
    }
}

proof fn lemma_first_match_from(t: Seq<char>, markers: Seq<Seq<char>>, from: int, k: int)
    requires
        0 <= from <= k < markers.len(),
        markers[k].is_prefix_of(t),
        forall|j: int| from <= j < k ==> !(#[trigger] markers[j]).is_prefix_of(t),
    ensures
        first_matching_marker(t, markers, from) == Some(k),
    decreases k - from,
{
    if from < k {
        lemma_first_match_from(t, markers, from + 1, k);
    }
}

proof fn lemma_no_match_from(t: Seq<char>, markers: Seq<Seq<char>>, from: int)
    requires
        0 <= from <= markers.len(),
        forall|j: int| 0 <= j < markers.len() ==> !(#[trigger] markers[j]).is_prefix_of(t),
    ensures
        first_matching_marker(t, markers, from) is None,
    decreases markers.len() - from,
{
    if from < markers.len() {
        lemma_no_match_from(t, markers, from + 1);
    }
}

/// A line that is leading whitespace `lead` followed by `rest`, where `rest`
/// starts with marker `k` and with no marker listed before it: the prefix is
/// `lead`, the marker, and one space if one follows the marker (never more);
/// the content is what comes after.
pub proof fn lemma_detect_prefix_with_marker(
    lead: Seq<char>,
    rest: Seq<char>,
    markers: Seq<Seq<char>>,
    k: int,
)
    requires
        all_whitespace(lead),
        rest.len() == 0 || !spec_is_whitespace(rest[0]),
        0 <= k < markers.len(),
        markers[k].is_prefix_of(rest),
        forall|j: int| 0 <= j < k ==> !(#[trigger] markers[j]).is_prefix_of(rest),
    ensures
        ({
            let m = markers[k];
            let after = rest.skip(m.len() as int);
            spec_detect_prefix(lead + rest, markers) == if after.len() > 0 && after[0] == ' ' {
                (lead + m + seq![' '], after.skip(1))
            } else {
                (lead + m, after)
            }
        }),
{
    let line = lead + rest;
    lemma_trim_start_split(lead, rest);
    assert(line.subrange(0, line.len() - rest.len()) =~= lead);
    lemma_first_match_from(rest, markers, 0, k);
    let m = markers[k];
    let after = rest.skip(m.len() as int);
    if after.len() > 0 && after[0] == ' ' {
        assert(after.take(1) =~= seq![' ']);
    } else {
        assert(after.take(0) =~= Seq::<char>::empty());
        assert(lead + m + Seq::<char>::empty() =~= lead + m);
        assert(after.skip(0) =~= after);
    }
}

/// A line that is leading whitespace `lead` followed by `rest`, where `rest`
/// starts with no marker: the prefix is `lead` and the content is `rest`.
pub proof fn lemma_detect_prefix_without_marker(
    lead: Seq<char>,
    rest: Seq<char>,
    markers: Seq<Seq<char>>,
)
    requires
        all_whitespace(lead),
        rest.len() == 0 || !spec_is_whitespace(rest[0]),
        forall|j: int| 0 <= j < markers.len() ==> !(#[trigger] markers[j]).is_prefix_of(rest),
    ensures
        spec_detect_prefix(lead + rest, markers) == (lead, rest),
{
    let line = lead + rest;
    lemma_trim_start_split(lead, rest);
    assert(line.subrange(0, line.len() - rest.len()) =~= lead);
    lemma_no_match_from(rest, markers, 0);
}

/// A line is blank when its content is empty or only whitespace.
pub open spec fn spec_is_blank_content(line: Seq<char>, markers: Seq<Seq<char>>) -> bool {
    all_whitespace(spec_detect_prefix(line, markers).1)
}

/// The prefix and the content of a line make up the whole line.
pub proof fn lemma_prefix_then_content(line: Seq<char>, markers: Seq<Seq<char>>)
    ensures
        spec_detect_prefix(line, markers).0 + spec_detect_prefix(line, markers).1 == line,
{
    let t = trim_start(line);
    lemma_trim_start_is_suffix(line);
    let lead = line.subrange(0, line.len() - t.len());
    assert(lead + t =~= line);
    match first_matching_marker(t, markers, 0) {
        Some(k) => {
            lemma_first_matching_marker(t, markers, 0);
            let m = markers[k];
            let after = t.skip(m.len() as int);
            assert(m + after =~= t);
            let sp: int = if after.len() > 0 && after[0] == ' ' {
                1
            } else {
                0
            };
            assert(after.take(sp) + after.skip(sp) =~= after);
            assert(lead + m + after.take(sp) + after.skip(sp) =~= line);
        },
        None => {},
    }
}

proof fn lemma_first_matching_marker(t: Seq<char>, markers: Seq<Seq<char>>, from: int)
    ensures
        first_matching_marker(t, markers, from) matches Some(k) ==> from <= k < markers.len()
            && markers[k].is_prefix_of(t),
    decreases markers.len() - from,
{
    if 0 <= from < markers.len() && !markers[from].is_prefix_of(t) {
        lemma_first_matching_marker(t, markers, from + 1);
    }
}

/// The markers as vectors of characters.
pub fn marker_chars(markers: &CommentMarkers) -> (r: Vec<Vec<char>>)
    ensures
        seqs_of(r@) == markers.texts(),
{
    let mut r: Vec<Vec<char>> = Vec::new();
    let mut k: usize = 0;
    while k < markers.line.len()
        invariant
            k <= markers.line@.len(),
            seqs_of(r@) =~= markers.texts().subrange(0, k as int),
        decreases markers.line.len() - k,
    {
        let c = chars_of(markers.line[k]);
        r.push(c);
        assert(markers.texts().subrange(0, k + 1) =~= markers.texts().subrange(0, k as int).push(
            markers.line@[k as int]@,
        ));
        k = k + 1;
    }
    assert(markers.texts().subrange(0, k as int) =~= markers.texts());
    r
}

/// Splits `line` into its prefix and its content.
pub fn detect_prefix_chars(line: &Vec<char>, markers: &Vec<Vec<char>>) -> (r: (Vec<char>, Vec<char>))
    ensures
        (r.0@, r.1@) == spec_detect_prefix(line@, seqs_of(markers@)),
{
    let n = line.len();
    let k = skip_leading_whitespace(line.as_slice(), 0, n);
    let ghost ms = seqs_of(markers@);
    let ghost t = trim_start(line@);
    assert(line@.subrange(0, n as int) =~= line@);
    assert(t =~= line@.subrange(k as int, n as int));
    let mut j: usize = 0;
    while j < markers.len()
        invariant
            k <= n == line@.len(),
            ms == seqs_of(markers@),
            t =~= line@.subrange(k as int, n as int),
            t == trim_start(line@),
            j <= markers@.len(),
            first_matching_marker(t, ms, 0) == first_matching_marker(t, ms, j as int),
        decreases markers.len() - j,
    {
        let m = &markers[j];
        if occurs_at(line, k, m) {
            let after = k + m.len();
            let sp: usize = if after < n && line[after] == ' ' {
                1
            } else {
                0
            };
            let prefix = chars_between(line, 0, after + sp);
            let content = chars_between(line, after + sp, n);
            proof {
                let mm = ms[j as int];
                assert(mm == m@);
                assert(mm.is_prefix_of(t));
                assert(first_matching_marker(t, ms, j as int) == Some(j as int));
                assert(line@.len() - t.len() == k);
                let aft = t.skip(mm.len() as int);
                assert(aft =~= line@.subrange(after as int, n as int));
                assert(aft.len() > 0 ==> aft[0] == line@[after as int]);
                let ssp: int = if aft.len() > 0 && aft[0] == ' ' {
                    1
                } else {
                    0
                };
                assert(ssp == sp);
                assert(line@.subrange(0, after + sp) =~= line@.subrange(0, n - t.len()) + mm
                    + aft.take(sp as int));
                assert(aft.skip(sp as int) =~= line@.subrange(after + sp, n as int));
                let lead = line@.subrange(0, line@.len() - t.len());
                assert(spec_detect_prefix(line@, ms).0 == lead + mm + aft.take(ssp));
                assert(spec_detect_prefix(line@, ms).1 == aft.skip(ssp));
                assert(prefix@ == lead + mm + aft.take(ssp));
                assert(content@ == aft.skip(ssp));
            }
            return (prefix, content);
        }
        j = j + 1;
    }
    (chars_between(line, 0, k), chars_between(line, k, n))
}

/// Try to detect a comment prefix on the given line.
/// Returns the prefix (whitespace + marker + optional space) and remaining content.
pub fn detect_prefix(line: &str, markers: &CommentMarkers) -> (p: LinePrefix)
    ensures
        (p.prefix@, p.content@) == spec_detect_prefix(line@, markers.texts()),
        p.prefix@ + p.content@ == line@,
{
    proof {
        lemma_prefix_then_content(line@, markers.texts());
    }
    let chars = chars_of(line);
    let ms = marker_chars(markers);
    let (prefix, content) = detect_prefix_chars(&chars, &ms);
    let p = LinePrefix {
        prefix: string_of(prefix.as_slice(), 0, prefix.len()),
        content: string_of(content.as_slice(), 0, content.len()),
    };
    assert(prefix@.subrange(0, prefix@.len() as int) =~= prefix@);
    assert(content@.subrange(0, content@.len() as int) =~= content@);
    p
}

/// Whether every character of `v` is whitespace.
pub fn all_whitespace_chars(v: &Vec<char>) -> (r: bool)
    ensures
        r == all_whitespace(v@),
{
    let mut k: usize = 0;
    while k < v.len()
        invariant
            k <= v@.len(),
            forall|t: int| 0 <= t < k ==> crate::text::spec_is_whitespace(#[trigger] v@[t]),
        decreases v.len() - k,
    {
        if !is_whitespace(v[k]) {
            return false;
        }
        k = k + 1;
    }
    true
}

/// Whether the content of `line` is empty or only whitespace.
pub fn is_blank_chars(line: &Vec<char>, markers: &Vec<Vec<char>>) -> (r: bool)
    ensures
        r == spec_is_blank_content(line@, seqs_of(markers@)),
{
    let (_prefix, content) = detect_prefix_chars(line, markers);
    all_whitespace_chars(&content)
}

/// Check if a line is "blank" for paragraph boundary purposes.
/// A line is blank if, after stripping the prefix, the content is empty or only whitespace.
pub fn is_blank_content(line: &str, markers: &CommentMarkers) -> (r: bool)
    ensures
        r == spec_is_blank_content(line@, markers.texts()),
{
    let chars = chars_of(line);
    let ms = marker_chars(markers);
    is_blank_chars(&chars, &ms)
}

/// Check if two prefixes are compatible (same paragraph).
/// They must have the same comment marker and indentation.
pub fn prefixes_compatible(a: &LinePrefix, b: &LinePrefix) -> (r: bool)
    ensures
        r == (a.prefix@ == b.prefix@),
{
    a.prefix == b.prefix
}

} // verus!
