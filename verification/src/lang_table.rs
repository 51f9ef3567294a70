//! The language table, read from the languages' side.
use vstd::prelude::*;
use crate::langs::lang_spec;

verus! {

/// Each language name is told apart by its length and its first and last letters.
proof fn lemma_names_apart()
    ensures
        "Rust"@.len() == 4 && "Rust"@[0] == 'R' && "Rust"@[3] == 't',
        "Python"@.len() == 6 && "Python"@[0] == 'P' && "Python"@[5] == 'n',
        "JavaScript"@.len() == 10 && "JavaScript"@[0] == 'J' && "JavaScript"@[9] == 't',
        "TypeScript"@.len() == 10 && "TypeScript"@[0] == 'T' && "TypeScript"@[9] == 't',
        "C"@.len() == 1 && "C"@[0] == 'C' && "C"@[0] == 'C',
        "C++"@.len() == 3 && "C++"@[0] == 'C' && "C++"@[2] == '+',
        "C#"@.len() == 2 && "C#"@[0] == 'C' && "C#"@[1] == '#',
        "Go"@.len() == 2 && "Go"@[0] == 'G' && "Go"@[1] == 'o',
        "Ruby"@.len() == 4 && "Ruby"@[0] == 'R' && "Ruby"@[3] == 'y',
        "Java"@.len() == 4 && "Java"@[0] == 'J' && "Java"@[3] == 'a',
        "Kotlin"@.len() == 6 && "Kotlin"@[0] == 'K' && "Kotlin"@[5] == 'n',
        "Swift"@.len() == 5 && "Swift"@[0] == 'S' && "Swift"@[4] == 't',
        "Dart"@.len() == 4 && "Dart"@[0] == 'D' && "Dart"@[3] == 't',
        "GDScript"@.len() == 8 && "GDScript"@[0] == 'G' && "GDScript"@[7] == 't',
        "Lua"@.len() == 3 && "Lua"@[0] == 'L' && "Lua"@[2] == 'a',
        "Zig"@.len() == 3 && "Zig"@[0] == 'Z' && "Zig"@[2] == 'g',
        "Odin"@.len() == 4 && "Odin"@[0] == 'O' && "Odin"@[3] == 'n',
        "Shell"@.len() == 5 && "Shell"@[0] == 'S' && "Shell"@[4] == 'l',
        "HTML"@.len() == 4 && "HTML"@[0] == 'H' && "HTML"@[3] == 'L',
        "CSS"@.len() == 3 && "CSS"@[0] == 'C' && "CSS"@[2] == 'S',
        "Markdown"@.len() == 8 && "Markdown"@[0] == 'M' && "Markdown"@[7] == 'n',
        "TOML"@.len() == 4 && "TOML"@[0] == 'T' && "TOML"@[3] == 'L',
        "YAML"@.len() == 4 && "YAML"@[0] == 'Y' && "YAML"@[3] == 'L',
        "JSON"@.len() == 4 && "JSON"@[0] == 'J' && "JSON"@[3] == 'N',
        "XML"@.len() == 3 && "XML"@[0] == 'X' && "XML"@[2] == 'L',
        "SQL"@.len() == 3 && "SQL"@[0] == 'S' && "SQL"@[2] == 'L',
        "Vim"@.len() == 3 && "Vim"@[0] == 'V' && "Vim"@[2] == 'm',
        "Elisp"@.len() == 5 && "Elisp"@[0] == 'E' && "Elisp"@[4] == 'p',
        "Elixir"@.len() == 6 && "Elixir"@[0] == 'E' && "Elixir"@[5] == 'r',
        "Erlang"@.len() == 6 && "Erlang"@[0] == 'E' && "Erlang"@[5] == 'g',
        "Haskell"@.len() == 7 && "Haskell"@[0] == 'H' && "Haskell"@[6] == 'l',
        "OCaml"@.len() == 5 && "OCaml"@[0] == 'O' && "OCaml"@[4] == 'l',
        "F#"@.len() == 2 && "F#"@[0] == 'F' && "F#"@[1] == '#',
        "Clojure"@.len() == 7 && "Clojure"@[0] == 'C' && "Clojure"@[6] == 'e',
        "R"@.len() == 1 && "R"@[0] == 'R' && "R"@[0] == 'R',
        "PHP"@.len() == 3 && "PHP"@[0] == 'P' && "PHP"@[2] == 'P',
        "Perl"@.len() == 4 && "Perl"@[0] == 'P' && "Perl"@[3] == 'l',
        "Vue"@.len() == 3 && "Vue"@[0] == 'V' && "Vue"@[2] == 'e',
        "Svelte"@.len() == 6 && "Svelte"@[0] == 'S' && "Svelte"@[5] == 'e',
{
    reveal_strlit("Rust");
    reveal_strlit("Python");
    reveal_strlit("JavaScript");
    reveal_strlit("TypeScript");
    reveal_strlit("C");
    reveal_strlit("C++");
    reveal_strlit("C#");
    reveal_strlit("Go");
    reveal_strlit("Ruby");
    reveal_strlit("Java");
    reveal_strlit("Kotlin");
    reveal_strlit("Swift");
    reveal_strlit("Dart");
    reveal_strlit("GDScript");
    reveal_strlit("Lua");
    reveal_strlit("Zig");
    reveal_strlit("Odin");
    reveal_strlit("Shell");
    reveal_strlit("HTML");
    reveal_strlit("CSS");
    reveal_strlit("Markdown");
    reveal_strlit("TOML");
    reveal_strlit("YAML");
    reveal_strlit("JSON");
    reveal_strlit("XML");
    reveal_strlit("SQL");
    reveal_strlit("Vim");
    reveal_strlit("Elisp");
    reveal_strlit("Elixir");
    reveal_strlit("Erlang");
    reveal_strlit("Haskell");
    reveal_strlit("OCaml");
    reveal_strlit("F#");
    reveal_strlit("Clojure");
    reveal_strlit("R");
    reveal_strlit("PHP");
    reveal_strlit("Perl");
    reveal_strlit("Vue");
    reveal_strlit("Svelte");
}

/// The extensions of the table, as their letters.
proof fn lemma_extensions_apart()
    ensures
        "rs"@ =~= seq!['r', 's'],
        "py"@ =~= seq!['p', 'y'],
        "js"@ =~= seq!['j', 's'],
        "mjs"@ =~= seq!['m', 'j', 's'],
        "cjs"@ =~= seq!['c', 'j', 's'],
        "jsx"@ =~= seq!['j', 's', 'x'],
        "ts"@ =~= seq!['t', 's'],
        "tsx"@ =~= seq!['t', 's', 'x'],
        "mts"@ =~= seq!['m', 't', 's'],
        "cts"@ =~= seq!['c', 't', 's'],
        "c"@ =~= seq!['c'],
        "h"@ =~= seq!['h'],
        "cpp"@ =~= seq!['c', 'p', 'p'],
        "cc"@ =~= seq!['c', 'c'],
        "cxx"@ =~= seq!['c', 'x', 'x'],
        "hpp"@ =~= seq!['h', 'p', 'p'],
        "hh"@ =~= seq!['h', 'h'],
        "cs"@ =~= seq!['c', 's'],
        "go"@ =~= seq!['g', 'o'],
        "rb"@ =~= seq!['r', 'b'],
        "java"@ =~= seq!['j', 'a', 'v', 'a'],
        "kt"@ =~= seq!['k', 't'],
        "kts"@ =~= seq!['k', 't', 's'],
        "swift"@ =~= seq!['s', 'w', 'i', 'f', 't'],
        "dart"@ =~= seq!['d', 'a', 'r', 't'],
        "gd"@ =~= seq!['g', 'd'],
        "lua"@ =~= seq!['l', 'u', 'a'],
        "zig"@ =~= seq!['z', 'i', 'g'],
        "odin"@ =~= seq!['o', 'd', 'i', 'n'],
        "sh"@ =~= seq!['s', 'h'],
        "bash"@ =~= seq!['b', 'a', 's', 'h'],
        "fish"@ =~= seq!['f', 'i', 's', 'h'],
        "zsh"@ =~= seq!['z', 's', 'h'],
        "html"@ =~= seq!['h', 't', 'm', 'l'],
        "htm"@ =~= seq!['h', 't', 'm'],
        "css"@ =~= seq!['c', 's', 's'],
        "scss"@ =~= seq!['s', 'c', 's', 's'],
        "sass"@ =~= seq!['s', 'a', 's', 's'],
        "md"@ =~= seq!['m', 'd'],
        "markdown"@ =~= seq!['m', 'a', 'r', 'k', 'd', 'o', 'w', 'n'],
        "toml"@ =~= seq!['t', 'o', 'm', 'l'],
        "yaml"@ =~= seq!['y', 'a', 'm', 'l'],
        "yml"@ =~= seq!['y', 'm', 'l'],
        "json"@ =~= seq!['j', 's', 'o', 'n'],
        "xml"@ =~= seq!['x', 'm', 'l'],
        "sql"@ =~= seq!['s', 'q', 'l'],
        "vim"@ =~= seq!['v', 'i', 'm'],
        "el"@ =~= seq!['e', 'l'],
        "ex"@ =~= seq!['e', 'x'],
        "exs"@ =~= seq!['e', 'x', 's'],
        "erl"@ =~= seq!['e', 'r', 'l'],
        "hrl"@ =~= seq!['h', 'r', 'l'],
        "hs"@ =~= seq!['h', 's'],
        "ml"@ =~= seq!['m', 'l'],
        "mli"@ =~= seq!['m', 'l', 'i'],
        "fs"@ =~= seq!['f', 's'],
        "fsx"@ =~= seq!['f', 's', 'x'],
        "clj"@ =~= seq!['c', 'l', 'j'],
        "cljs"@ =~= seq!['c', 'l', 'j', 's'],
        "r"@ =~= seq!['r'],
        "php"@ =~= seq!['p', 'h', 'p'],
        "pl"@ =~= seq!['p', 'l'],
        "pm"@ =~= seq!['p', 'm'],
        "vue"@ =~= seq!['v', 'u', 'e'],
        "svelte"@ =~= seq!['s', 'v', 'e', 'l', 't', 'e'],
{
    reveal_strlit("rs");
    reveal_strlit("py");
    reveal_strlit("js");
    reveal_strlit("mjs");
    reveal_strlit("cjs");
    reveal_strlit("jsx");
    reveal_strlit("ts");
    reveal_strlit("tsx");
    reveal_strlit("mts");
    reveal_strlit("cts");
    reveal_strlit("c");
    reveal_strlit("h");
    reveal_strlit("cpp");
    reveal_strlit("cc");
    reveal_strlit("cxx");
    reveal_strlit("hpp");
    reveal_strlit("hh");
    reveal_strlit("cs");
    reveal_strlit("go");
    reveal_strlit("rb");
    reveal_strlit("java");
    reveal_strlit("kt");
    reveal_strlit("kts");
    reveal_strlit("swift");
    reveal_strlit("dart");
    reveal_strlit("gd");
    reveal_strlit("lua");
    reveal_strlit("zig");
    reveal_strlit("odin");
    reveal_strlit("sh");
    reveal_strlit("bash");
    reveal_strlit("fish");
    reveal_strlit("zsh");
    reveal_strlit("html");
    reveal_strlit("htm");
    reveal_strlit("css");
    reveal_strlit("scss");
    reveal_strlit("sass");
    reveal_strlit("md");
    reveal_strlit("markdown");
    reveal_strlit("toml");
    reveal_strlit("yaml");
    reveal_strlit("yml");
    reveal_strlit("json");
    reveal_strlit("xml");
    reveal_strlit("sql");
    reveal_strlit("vim");
    reveal_strlit("el");
    reveal_strlit("ex");
    reveal_strlit("exs");
    reveal_strlit("erl");
    reveal_strlit("hrl");
    reveal_strlit("hs");
    reveal_strlit("ml");
    reveal_strlit("mli");
    reveal_strlit("fs");
    reveal_strlit("fsx");
    reveal_strlit("clj");
    reveal_strlit("cljs");
    reveal_strlit("r");
    reveal_strlit("php");
    reveal_strlit("pl");
    reveal_strlit("pm");
    reveal_strlit("vue");
    reveal_strlit("svelte");
}

#[verifier::rlimit(60)]
proof fn lemma_rust_extensions(e: Seq<char>)
    ensures
        lang_spec(e) == Option::Some("Rust"@) <==> (e == "rs"@),
{
    lemma_names_apart();
    lemma_extensions_apart();
    if e == "rs"@ {
        assert(e.len() == 2 && e[0] == 'r' && e[1] == 's');
    }
}

#[verifier::rlimit(60)]
proof fn lemma_python_extensions(e: Seq<char>)
    ensures
        lang_spec(e) == Option::Some("Python"@) <==> (e == "py"@),
{
    lemma_names_apart();
    lemma_extensions_apart();
    if e == "py"@ {
        assert(e.len() == 2 && e[0] == 'p' && e[1] == 'y');
    }
}

#[verifier::rlimit(60)]
proof fn lemma_javascript_extensions(e: Seq<char>)
    ensures
        lang_spec(e) == Option::Some("JavaScript"@) <==> (e == "js"@ || e == "mjs"@ || e == "cjs"@ || e == "jsx"@),
{
    lemma_names_apart();
    lemma_extensions_apart();
    if e == "js"@ {
        assert(e.len() == 2 && e[0] == 'j' && e[1] == 's');
    }
    if e == "mjs"@ {
        assert(e.len() == 3 && e[0] == 'm' && e[1] == 'j' && e[2] == 's');
    }
    if e == "cjs"@ {
        assert(e.len() == 3 && e[0] == 'c' && e[1] == 'j' && e[2] == 's');
    }
    if e == "jsx"@ {
        assert(e.len() == 3 && e[0] == 'j' && e[1] == 's' && e[2] == 'x');
    }
}

#[verifier::rlimit(60)]
proof fn lemma_typescript_extensions(e: Seq<char>)
    ensures
        lang_spec(e) == Option::Some("TypeScript"@) <==> (e == "ts"@ || e == "tsx"@ || e == "mts"@ || e == "cts"@),
{
    lemma_names_apart();
    lemma_extensions_apart();
    if e == "ts"@ {
        assert(e.len() == 2 && e[0] == 't' && e[1] == 's');
    }
    if e == "tsx"@ {
        assert(e.len() == 3 && e[0] == 't' && e[1] == 's' && e[2] == 'x');
    }
    if e == "mts"@ {
        assert(e.len() == 3 && e[0] == 'm' && e[1] == 't' && e[2] == 's');
    }
    if e == "cts"@ {
        assert(e.len() == 3 && e[0] == 'c' && e[1] == 't' && e[2] == 's');
    }
}

#[verifier::rlimit(60)]
proof fn lemma_c_extensions(e: Seq<char>)
    ensures
        lang_spec(e) == Option::Some("C"@) <==> (e == "c"@ || e == "h"@),
{
    lemma_names_apart();
    lemma_extensions_apart();
    if e == "c"@ {
        assert(e.len() == 1 && e[0] == 'c');
    }
    if e == "h"@ {
        assert(e.len() == 1 && e[0] == 'h');
    }
}

#[verifier::rlimit(60)]
proof fn lemma_cpp_extensions(e: Seq<char>)
    ensures
        lang_spec(e) == Option::Some("C++"@) <==> (e == "cpp"@ || e == "cc"@ || e == "cxx"@ || e == "hpp"@ || e == "hh"@),
{
    lemma_names_apart();
    lemma_extensions_apart();
    if e == "cpp"@ {
        assert(e.len() == 3 && e[0] == 'c' && e[1] == 'p' && e[2] == 'p');
    }
    if e == "cc"@ {
        assert(e.len() == 2 && e[0] == 'c' && e[1] == 'c');
    }
    if e == "cxx"@ {
        assert(e.len() == 3 && e[0] == 'c' && e[1] == 'x' && e[2] == 'x');
    }
    if e == "hpp"@ {
        assert(e.len() == 3 && e[0] == 'h' && e[1] == 'p' && e[2] == 'p');
    }
    if e == "hh"@ {
        assert(e.len() == 2 && e[0] == 'h' && e[1] == 'h');
    }
}

#[verifier::rlimit(60)]
proof fn lemma_csharp_extensions(e: Seq<char>)
    ensures
        lang_spec(e) == Option::Some("C#"@) <==> (e == "cs"@),
{
    lemma_names_apart();
    lemma_extensions_apart();
    if e == "cs"@ {
        assert(e.len() == 2 && e[0] == 'c' && e[1] == 's');
    }
}

#[verifier::rlimit(60)]
proof fn lemma_go_extensions(e: Seq<char>)
    ensures
        lang_spec(e) == Option::Some("Go"@) <==> (e == "go"@),
{
    lemma_names_apart();
    lemma_extensions_apart();
    if e == "go"@ {
        assert(e.len() == 2 && e[0] == 'g' && e[1] == 'o');
    }
}

#[verifier::rlimit(60)]
proof fn lemma_ruby_extensions(e: Seq<char>)
    ensures
        lang_spec(e) == Option::Some("Ruby"@) <==> (e == "rb"@),
{
    lemma_names_apart();
    lemma_extensions_apart();
    if e == "rb"@ {
        assert(e.len() == 2 && e[0] == 'r' && e[1] == 'b');
    }
}

#[verifier::rlimit(60)]
proof fn lemma_java_extensions(e: Seq<char>)
    ensures
        lang_spec(e) == Option::Some("Java"@) <==> (e == "java"@),
{
    lemma_names_apart();
    lemma_extensions_apart();
    if e == "java"@ {
        assert(e.len() == 4 && e[0] == 'j' && e[1] == 'a' && e[2] == 'v' && e[3] == 'a');
    }
}

#[verifier::rlimit(60)]
proof fn lemma_kotlin_extensions(e: Seq<char>)
    ensures
        lang_spec(e) == Option::Some("Kotlin"@) <==> (e == "kt"@ || e == "kts"@),
{
    lemma_names_apart();
    lemma_extensions_apart();
    if e == "kt"@ {
        assert(e.len() == 2 && e[0] == 'k' && e[1] == 't');
    }
    if e == "kts"@ {
        assert(e.len() == 3 && e[0] == 'k' && e[1] == 't' && e[2] == 's');
    }
}

#[verifier::rlimit(60)]
proof fn lemma_swift_extensions(e: Seq<char>)
    ensures
        lang_spec(e) == Option::Some("Swift"@) <==> (e == "swift"@),
{
    lemma_names_apart();
    lemma_extensions_apart();
    if e == "swift"@ {
        assert(e.len() == 5 && e[0] == 's' && e[1] == 'w' && e[2] == 'i' && e[3] == 'f' && e[4] == 't');
    }
}

#[verifier::rlimit(60)]
proof fn lemma_dart_extensions(e: Seq<char>)
    ensures
        lang_spec(e) == Option::Some("Dart"@) <==> (e == "dart"@),
{
    lemma_names_apart();
    lemma_extensions_apart();
    if e == "dart"@ {
        assert(e.len() == 4 && e[0] == 'd' && e[1] == 'a' && e[2] == 'r' && e[3] == 't');
    }
}

#[verifier::rlimit(60)]
proof fn lemma_gdscript_extensions(e: Seq<char>)
    ensures
        lang_spec(e) == Option::Some("GDScript"@) <==> (e == "gd"@),
{
    lemma_names_apart();
    lemma_extensions_apart();
    if e == "gd"@ {
        assert(e.len() == 2 && e[0] == 'g' && e[1] == 'd');
    }
}

#[verifier::rlimit(60)]
proof fn lemma_lua_extensions(e: Seq<char>)
    ensures
        lang_spec(e) == Option::Some("Lua"@) <==> (e == "lua"@),
{
    lemma_names_apart();
    lemma_extensions_apart();
    if e == "lua"@ {
        assert(e.len() == 3 && e[0] == 'l' && e[1] == 'u' && e[2] == 'a');
    }
}

#[verifier::rlimit(60)]
proof fn lemma_zig_extensions(e: Seq<char>)
    ensures
        lang_spec(e) == Option::Some("Zig"@) <==> (e == "zig"@),
{
    lemma_names_apart();
    lemma_extensions_apart();
    if e == "zig"@ {
        assert(e.len() == 3 && e[0] == 'z' && e[1] == 'i' && e[2] == 'g');
    }
}

#[verifier::rlimit(60)]
proof fn lemma_odin_extensions(e: Seq<char>)
    ensures
        lang_spec(e) == Option::Some("Odin"@) <==> (e == "odin"@),
{
    lemma_names_apart();
    lemma_extensions_apart();
    if e == "odin"@ {
        assert(e.len() == 4 && e[0] == 'o' && e[1] == 'd' && e[2] == 'i' && e[3] == 'n');
    }
}

#[verifier::rlimit(60)]
proof fn lemma_shell_extensions(e: Seq<char>)
    ensures
        lang_spec(e) == Option::Some("Shell"@) <==> (e == "sh"@ || e == "bash"@ || e == "fish"@ || e == "zsh"@),
{
    lemma_names_apart();
    lemma_extensions_apart();
    if e == "sh"@ {
        assert(e.len() == 2 && e[0] == 's' && e[1] == 'h');
    }
    if e == "bash"@ {
        assert(e.len() == 4 && e[0] == 'b' && e[1] == 'a' && e[2] == 's' && e[3] == 'h');
    }
    if e == "fish"@ {
        assert(e.len() == 4 && e[0] == 'f' && e[1] == 'i' && e[2] == 's' && e[3] == 'h');
    }
    if e == "zsh"@ {
        assert(e.len() == 3 && e[0] == 'z' && e[1] == 's' && e[2] == 'h');
    }
}

#[verifier::rlimit(60)]
proof fn lemma_html_extensions(e: Seq<char>)
    ensures
        lang_spec(e) == Option::Some("HTML"@) <==> (e == "html"@ || e == "htm"@),
{
    lemma_names_apart();
    lemma_extensions_apart();
    if e == "html"@ {
        assert(e.len() == 4 && e[0] == 'h' && e[1] == 't' && e[2] == 'm' && e[3] == 'l');
    }
    if e == "htm"@ {
        assert(e.len() == 3 && e[0] == 'h' && e[1] == 't' && e[2] == 'm');
    }
}

#[verifier::rlimit(60)]
proof fn lemma_css_extensions(e: Seq<char>)
    ensures
        lang_spec(e) == Option::Some("CSS"@) <==> (e == "css"@ || e == "scss"@ || e == "sass"@),
{
    lemma_names_apart();
    lemma_extensions_apart();
    if e == "css"@ {
        assert(e.len() == 3 && e[0] == 'c' && e[1] == 's' && e[2] == 's');
    }
    if e == "scss"@ {
        assert(e.len() == 4 && e[0] == 's' && e[1] == 'c' && e[2] == 's' && e[3] == 's');
    }
    if e == "sass"@ {
        assert(e.len() == 4 && e[0] == 's' && e[1] == 'a' && e[2] == 's' && e[3] == 's');
    }
}

#[verifier::rlimit(60)]
proof fn lemma_markdown_extensions(e: Seq<char>)
    ensures
        lang_spec(e) == Option::Some("Markdown"@) <==> (e == "md"@ || e == "markdown"@),
{
    lemma_names_apart();
    lemma_extensions_apart();
    if e == "md"@ {
        assert(e.len() == 2 && e[0] == 'm' && e[1] == 'd');
    }
    if e == "markdown"@ {
        assert(e.len() == 8 && e[0] == 'm' && e[1] == 'a' && e[2] == 'r' && e[3] == 'k' && e[4] == 'd' && e[5] == 'o' && e[6] == 'w' && e[7] == 'n');
    }
}

#[verifier::rlimit(60)]
proof fn lemma_toml_extensions(e: Seq<char>)
    ensures
        lang_spec(e) == Option::Some("TOML"@) <==> (e == "toml"@),
{
    lemma_names_apart();
    lemma_extensions_apart();
    if e == "toml"@ {
        assert(e.len() == 4 && e[0] == 't' && e[1] == 'o' && e[2] == 'm' && e[3] == 'l');
    }
}

#[verifier::rlimit(60)]
proof fn lemma_yaml_extensions(e: Seq<char>)
    ensures
        lang_spec(e) == Option::Some("YAML"@) <==> (e == "yaml"@ || e == "yml"@),
{
    lemma_names_apart();
    lemma_extensions_apart();
    if e == "yaml"@ {
        assert(e.len() == 4 && e[0] == 'y' && e[1] == 'a' && e[2] == 'm' && e[3] == 'l');
    }
    if e == "yml"@ {
        assert(e.len() == 3 && e[0] == 'y' && e[1] == 'm' && e[2] == 'l');
    }
}

#[verifier::rlimit(60)]
proof fn lemma_json_extensions(e: Seq<char>)
    ensures
        lang_spec(e) == Option::Some("JSON"@) <==> (e == "json"@),
{
    lemma_names_apart();
    lemma_extensions_apart();
    if e == "json"@ {
        assert(e.len() == 4 && e[0] == 'j' && e[1] == 's' && e[2] == 'o' && e[3] == 'n');
    }
}

#[verifier::rlimit(60)]
proof fn lemma_xml_extensions(e: Seq<char>)
    ensures
        lang_spec(e) == Option::Some("XML"@) <==> (e == "xml"@),
{
    lemma_names_apart();
    lemma_extensions_apart();
    if e == "xml"@ {
        assert(e.len() == 3 && e[0] == 'x' && e[1] == 'm' && e[2] == 'l');
    }
}

#[verifier::rlimit(60)]
proof fn lemma_sql_extensions(e: Seq<char>)
    ensures
        lang_spec(e) == Option::Some("SQL"@) <==> (e == "sql"@),
{
    lemma_names_apart();
    lemma_extensions_apart();
    if e == "sql"@ {
        assert(e.len() == 3 && e[0] == 's' && e[1] == 'q' && e[2] == 'l');
    }
}

#[verifier::rlimit(60)]
proof fn lemma_vim_extensions(e: Seq<char>)
    ensures
        lang_spec(e) == Option::Some("Vim"@) <==> (e == "vim"@),
{
    lemma_names_apart();
    lemma_extensions_apart();
    if e == "vim"@ {
        assert(e.len() == 3 && e[0] == 'v' && e[1] == 'i' && e[2] == 'm');
    }
}

#[verifier::rlimit(60)]
proof fn lemma_elisp_extensions(e: Seq<char>)
    ensures
        lang_spec(e) == Option::Some("Elisp"@) <==> (e == "el"@),
{
    lemma_names_apart();
    lemma_extensions_apart();
    if e == "el"@ {
        assert(e.len() == 2 && e[0] == 'e' && e[1] == 'l');
    }
}

#[verifier::rlimit(60)]
proof fn lemma_elixir_extensions(e: Seq<char>)
    ensures
        lang_spec(e) == Option::Some("Elixir"@) <==> (e == "ex"@ || e == "exs"@),
{
    lemma_names_apart();
    lemma_extensions_apart();
    if e == "ex"@ {
        assert(e.len() == 2 && e[0] == 'e' && e[1] == 'x');
    }
    if e == "exs"@ {
        assert(e.len() == 3 && e[0] == 'e' && e[1] == 'x' && e[2] == 's');
    }
}

#[verifier::rlimit(60)]
proof fn lemma_erlang_extensions(e: Seq<char>)
    ensures
        lang_spec(e) == Option::Some("Erlang"@) <==> (e == "erl"@ || e == "hrl"@),
{
    lemma_names_apart();
    lemma_extensions_apart();
    if e == "erl"@ {
        assert(e.len() == 3 && e[0] == 'e' && e[1] == 'r' && e[2] == 'l');
    }
    if e == "hrl"@ {
        assert(e.len() == 3 && e[0] == 'h' && e[1] == 'r' && e[2] == 'l');
    }
}

#[verifier::rlimit(60)]
proof fn lemma_haskell_extensions(e: Seq<char>)
    ensures
        lang_spec(e) == Option::Some("Haskell"@) <==> (e == "hs"@),
{
    lemma_names_apart();
    lemma_extensions_apart();
    if e == "hs"@ {
        assert(e.len() == 2 && e[0] == 'h' && e[1] == 's');
    }
}

#[verifier::rlimit(60)]
proof fn lemma_ocaml_extensions(e: Seq<char>)
    ensures
        lang_spec(e) == Option::Some("OCaml"@) <==> (e == "ml"@ || e == "mli"@),
{
    lemma_names_apart();
    lemma_extensions_apart();
    if e == "ml"@ {
        assert(e.len() == 2 && e[0] == 'm' && e[1] == 'l');
    }
    if e == "mli"@ {
        assert(e.len() == 3 && e[0] == 'm' && e[1] == 'l' && e[2] == 'i');
    }
}

#[verifier::rlimit(60)]
proof fn lemma_fsharp_extensions(e: Seq<char>)
    ensures
        lang_spec(e) == Option::Some("F#"@) <==> (e == "fs"@ || e == "fsx"@),
{
    lemma_names_apart();
    lemma_extensions_apart();
    if e == "fs"@ {
        assert(e.len() == 2 && e[0] == 'f' && e[1] == 's');
    }
    if e == "fsx"@ {
        assert(e.len() == 3 && e[0] == 'f' && e[1] == 's' && e[2] == 'x');
    }
}

#[verifier::rlimit(60)]
proof fn lemma_clojure_extensions(e: Seq<char>)
    ensures
        lang_spec(e) == Option::Some("Clojure"@) <==> (e == "clj"@ || e == "cljs"@),
{
    lemma_names_apart();
    lemma_extensions_apart();
    if e == "clj"@ {
        assert(e.len() == 3 && e[0] == 'c' && e[1] == 'l' && e[2] == 'j');
    }
    if e == "cljs"@ {
        assert(e.len() == 4 && e[0] == 'c' && e[1] == 'l' && e[2] == 'j' && e[3] == 's');
    }
}

#[verifier::rlimit(60)]
proof fn lemma_r_extensions(e: Seq<char>)
    ensures
        lang_spec(e) == Option::Some("R"@) <==> (e == "r"@),
{
    lemma_names_apart();
    lemma_extensions_apart();
    if e == "r"@ {
        assert(e.len() == 1 && e[0] == 'r');
    }
}

#[verifier::rlimit(60)]
proof fn lemma_php_extensions(e: Seq<char>)
    ensures
        lang_spec(e) == Option::Some("PHP"@) <==> (e == "php"@),
{
    lemma_names_apart();
    lemma_extensions_apart();
    if e == "php"@ {
        assert(e.len() == 3 && e[0] == 'p' && e[1] == 'h' && e[2] == 'p');
    }
}

#[verifier::rlimit(60)]
proof fn lemma_perl_extensions(e: Seq<char>)
    ensures
        lang_spec(e) == Option::Some("Perl"@) <==> (e == "pl"@ || e == "pm"@),
{
    lemma_names_apart();
    lemma_extensions_apart();
    if e == "pl"@ {
        assert(e.len() == 2 && e[0] == 'p' && e[1] == 'l');
    }
    if e == "pm"@ {
        assert(e.len() == 2 && e[0] == 'p' && e[1] == 'm');
    }
}

#[verifier::rlimit(60)]
proof fn lemma_vue_extensions(e: Seq<char>)
    ensures
        lang_spec(e) == Option::Some("Vue"@) <==> (e == "vue"@),
{
    lemma_names_apart();
    lemma_extensions_apart();
    if e == "vue"@ {
        assert(e.len() == 3 && e[0] == 'v' && e[1] == 'u' && e[2] == 'e');
    }
}

#[verifier::rlimit(60)]
proof fn lemma_svelte_extensions(e: Seq<char>)
    ensures
        lang_spec(e) == Option::Some("Svelte"@) <==> (e == "svelte"@),
{
    lemma_names_apart();
    lemma_extensions_apart();
    if e == "svelte"@ {
        assert(e.len() == 6 && e[0] == 's' && e[1] == 'v' && e[2] == 'e' && e[3] == 'l' && e[4] == 't' && e[5] == 'e');
    }
}

/// The language table read from the languages' side: for each language, the
/// extensions that map to it are exactly those the table lists for it, so no
/// extension is counted under another language.
pub proof fn lemma_language_extensions()
    ensures
        forall|e: Seq<char>| #[trigger] lang_spec(e) == Option::Some("Rust"@) <==> (e == "rs"@),
        forall|e: Seq<char>| #[trigger] lang_spec(e) == Option::Some("Python"@) <==> (e == "py"@),
        forall|e: Seq<char>| #[trigger] lang_spec(e) == Option::Some("JavaScript"@) <==> (e == "js"@ || e == "mjs"@ || e == "cjs"@ || e == "jsx"@),
        forall|e: Seq<char>| #[trigger] lang_spec(e) == Option::Some("TypeScript"@) <==> (e == "ts"@ || e == "tsx"@ || e == "mts"@ || e == "cts"@),
        forall|e: Seq<char>| #[trigger] lang_spec(e) == Option::Some("C"@) <==> (e == "c"@ || e == "h"@),
        forall|e: Seq<char>| #[trigger] lang_spec(e) == Option::Some("C++"@) <==> (e == "cpp"@ || e == "cc"@ || e == "cxx"@ || e == "hpp"@ || e == "hh"@),
        forall|e: Seq<char>| #[trigger] lang_spec(e) == Option::Some("C#"@) <==> (e == "cs"@),
        forall|e: Seq<char>| #[trigger] lang_spec(e) == Option::Some("Go"@) <==> (e == "go"@),
        forall|e: Seq<char>| #[trigger] lang_spec(e) == Option::Some("Ruby"@) <==> (e == "rb"@),
        forall|e: Seq<char>| #[trigger] lang_spec(e) == Option::Some("Java"@) <==> (e == "java"@),
        forall|e: Seq<char>| #[trigger] lang_spec(e) == Option::Some("Kotlin"@) <==> (e == "kt"@ || e == "kts"@),
        forall|e: Seq<char>| #[trigger] lang_spec(e) == Option::Some("Swift"@) <==> (e == "swift"@),
        forall|e: Seq<char>| #[trigger] lang_spec(e) == Option::Some("Dart"@) <==> (e == "dart"@),
        forall|e: Seq<char>| #[trigger] lang_spec(e) == Option::Some("GDScript"@) <==> (e == "gd"@),
        forall|e: Seq<char>| #[trigger] lang_spec(e) == Option::Some("Lua"@) <==> (e == "lua"@),
        forall|e: Seq<char>| #[trigger] lang_spec(e) == Option::Some("Zig"@) <==> (e == "zig"@),
        forall|e: Seq<char>| #[trigger] lang_spec(e) == Option::Some("Odin"@) <==> (e == "odin"@),
        forall|e: Seq<char>| #[trigger] lang_spec(e) == Option::Some("Shell"@) <==> (e == "sh"@ || e == "bash"@ || e == "fish"@ || e == "zsh"@),
        forall|e: Seq<char>| #[trigger] lang_spec(e) == Option::Some("HTML"@) <==> (e == "html"@ || e == "htm"@),
        forall|e: Seq<char>| #[trigger] lang_spec(e) == Option::Some("CSS"@) <==> (e == "css"@ || e == "scss"@ || e == "sass"@),
        forall|e: Seq<char>| #[trigger] lang_spec(e) == Option::Some("Markdown"@) <==> (e == "md"@ || e == "markdown"@),
        forall|e: Seq<char>| #[trigger] lang_spec(e) == Option::Some("TOML"@) <==> (e == "toml"@),
        forall|e: Seq<char>| #[trigger] lang_spec(e) == Option::Some("YAML"@) <==> (e == "yaml"@ || e == "yml"@),
        forall|e: Seq<char>| #[trigger] lang_spec(e) == Option::Some("JSON"@) <==> (e == "json"@),
        forall|e: Seq<char>| #[trigger] lang_spec(e) == Option::Some("XML"@) <==> (e == "xml"@),
        forall|e: Seq<char>| #[trigger] lang_spec(e) == Option::Some("SQL"@) <==> (e == "sql"@),
        forall|e: Seq<char>| #[trigger] lang_spec(e) == Option::Some("Vim"@) <==> (e == "vim"@),
        forall|e: Seq<char>| #[trigger] lang_spec(e) == Option::Some("Elisp"@) <==> (e == "el"@),
        forall|e: Seq<char>| #[trigger] lang_spec(e) == Option::Some("Elixir"@) <==> (e == "ex"@ || e == "exs"@),
        forall|e: Seq<char>| #[trigger] lang_spec(e) == Option::Some("Erlang"@) <==> (e == "erl"@ || e == "hrl"@),
        forall|e: Seq<char>| #[trigger] lang_spec(e) == Option::Some("Haskell"@) <==> (e == "hs"@),
        forall|e: Seq<char>| #[trigger] lang_spec(e) == Option::Some("OCaml"@) <==> (e == "ml"@ || e == "mli"@),
        forall|e: Seq<char>| #[trigger] lang_spec(e) == Option::Some("F#"@) <==> (e == "fs"@ || e == "fsx"@),
        forall|e: Seq<char>| #[trigger] lang_spec(e) == Option::Some("Clojure"@) <==> (e == "clj"@ || e == "cljs"@),
        forall|e: Seq<char>| #[trigger] lang_spec(e) == Option::Some("R"@) <==> (e == "r"@),
        forall|e: Seq<char>| #[trigger] lang_spec(e) == Option::Some("PHP"@) <==> (e == "php"@),
        forall|e: Seq<char>| #[trigger] lang_spec(e) == Option::Some("Perl"@) <==> (e == "pl"@ || e == "pm"@),
        forall|e: Seq<char>| #[trigger] lang_spec(e) == Option::Some("Vue"@) <==> (e == "vue"@),
        forall|e: Seq<char>| #[trigger] lang_spec(e) == Option::Some("Svelte"@) <==> (e == "svelte"@),
{
    assert forall|e: Seq<char>| #[trigger] lang_spec(e) == Option::Some("Rust"@) <==> (e == "rs"@) by {
        lemma_rust_extensions(e);
    }
    assert forall|e: Seq<char>| #[trigger] lang_spec(e) == Option::Some("Python"@) <==> (e == "py"@) by {
        lemma_python_extensions(e);
    }
    assert forall|e: Seq<char>| #[trigger] lang_spec(e) == Option::Some("JavaScript"@) <==> (e == "js"@ || e == "mjs"@ || e == "cjs"@ || e == "jsx"@) by {
        lemma_javascript_extensions(e);
    }
    assert forall|e: Seq<char>| #[trigger] lang_spec(e) == Option::Some("TypeScript"@) <==> (e == "ts"@ || e == "tsx"@ || e == "mts"@ || e == "cts"@) by {
        lemma_typescript_extensions(e);
    }
    assert forall|e: Seq<char>| #[trigger] lang_spec(e) == Option::Some("C"@) <==> (e == "c"@ || e == "h"@) by {
        lemma_c_extensions(e);
    }
    assert forall|e: Seq<char>| #[trigger] lang_spec(e) == Option::Some("C++"@) <==> (e == "cpp"@ || e == "cc"@ || e == "cxx"@ || e == "hpp"@ || e == "hh"@) by {
        lemma_cpp_extensions(e);
    }
    assert forall|e: Seq<char>| #[trigger] lang_spec(e) == Option::Some("C#"@) <==> (e == "cs"@) by {
        lemma_csharp_extensions(e);
    }
    assert forall|e: Seq<char>| #[trigger] lang_spec(e) == Option::Some("Go"@) <==> (e == "go"@) by {
        lemma_go_extensions(e);
    }
    assert forall|e: Seq<char>| #[trigger] lang_spec(e) == Option::Some("Ruby"@) <==> (e == "rb"@) by {
        lemma_ruby_extensions(e);
    }
    assert forall|e: Seq<char>| #[trigger] lang_spec(e) == Option::Some("Java"@) <==> (e == "java"@) by {
        lemma_java_extensions(e);
    }
    assert forall|e: Seq<char>| #[trigger] lang_spec(e) == Option::Some("Kotlin"@) <==> (e == "kt"@ || e == "kts"@) by {
        lemma_kotlin_extensions(e);
    }
    assert forall|e: Seq<char>| #[trigger] lang_spec(e) == Option::Some("Swift"@) <==> (e == "swift"@) by {
        lemma_swift_extensions(e);
    }
    assert forall|e: Seq<char>| #[trigger] lang_spec(e) == Option::Some("Dart"@) <==> (e == "dart"@) by {
        lemma_dart_extensions(e);
    }
    assert forall|e: Seq<char>| #[trigger] lang_spec(e) == Option::Some("GDScript"@) <==> (e == "gd"@) by {
        lemma_gdscript_extensions(e);
    }
    assert forall|e: Seq<char>| #[trigger] lang_spec(e) == Option::Some("Lua"@) <==> (e == "lua"@) by {
        lemma_lua_extensions(e);
    }
    assert forall|e: Seq<char>| #[trigger] lang_spec(e) == Option::Some("Zig"@) <==> (e == "zig"@) by {
        lemma_zig_extensions(e);
    }
    assert forall|e: Seq<char>| #[trigger] lang_spec(e) == Option::Some("Odin"@) <==> (e == "odin"@) by {
        lemma_odin_extensions(e);
    }
    assert forall|e: Seq<char>| #[trigger] lang_spec(e) == Option::Some("Shell"@) <==> (e == "sh"@ || e == "bash"@ || e == "fish"@ || e == "zsh"@) by {
        lemma_shell_extensions(e);
    }
    assert forall|e: Seq<char>| #[trigger] lang_spec(e) == Option::Some("HTML"@) <==> (e == "html"@ || e == "htm"@) by {
        lemma_html_extensions(e);
    }
    assert forall|e: Seq<char>| #[trigger] lang_spec(e) == Option::Some("CSS"@) <==> (e == "css"@ || e == "scss"@ || e == "sass"@) by {
        lemma_css_extensions(e);
    }
    assert forall|e: Seq<char>| #[trigger] lang_spec(e) == Option::Some("Markdown"@) <==> (e == "md"@ || e == "markdown"@) by {
        lemma_markdown_extensions(e);
    }
    assert forall|e: Seq<char>| #[trigger] lang_spec(e) == Option::Some("TOML"@) <==> (e == "toml"@) by {
        lemma_toml_extensions(e);
    }
    assert forall|e: Seq<char>| #[trigger] lang_spec(e) == Option::Some("YAML"@) <==> (e == "yaml"@ || e == "yml"@) by {
        lemma_yaml_extensions(e);
    }
    assert forall|e: Seq<char>| #[trigger] lang_spec(e) == Option::Some("JSON"@) <==> (e == "json"@) by {
        lemma_json_extensions(e);
    }
    assert forall|e: Seq<char>| #[trigger] lang_spec(e) == Option::Some("XML"@) <==> (e == "xml"@) by {
        lemma_xml_extensions(e);
    }
    assert forall|e: Seq<char>| #[trigger] lang_spec(e) == Option::Some("SQL"@) <==> (e == "sql"@) by {
        lemma_sql_extensions(e);
    }
    assert forall|e: Seq<char>| #[trigger] lang_spec(e) == Option::Some("Vim"@) <==> (e == "vim"@) by {
        lemma_vim_extensions(e);
    }
    assert forall|e: Seq<char>| #[trigger] lang_spec(e) == Option::Some("Elisp"@) <==> (e == "el"@) by {
        lemma_elisp_extensions(e);
    }
    assert forall|e: Seq<char>| #[trigger] lang_spec(e) == Option::Some("Elixir"@) <==> (e == "ex"@ || e == "exs"@) by {
        lemma_elixir_extensions(e);
    }
    assert forall|e: Seq<char>| #[trigger] lang_spec(e) == Option::Some("Erlang"@) <==> (e == "erl"@ || e == "hrl"@) by {
        lemma_erlang_extensions(e);
    }
    assert forall|e: Seq<char>| #[trigger] lang_spec(e) == Option::Some("Haskell"@) <==> (e == "hs"@) by {
        lemma_haskell_extensions(e);
    }
    assert forall|e: Seq<char>| #[trigger] lang_spec(e) == Option::Some("OCaml"@) <==> (e == "ml"@ || e == "mli"@) by {
        lemma_ocaml_extensions(e);
    }
    assert forall|e: Seq<char>| #[trigger] lang_spec(e) == Option::Some("F#"@) <==> (e == "fs"@ || e == "fsx"@) by {
        lemma_fsharp_extensions(e);
    }
    assert forall|e: Seq<char>| #[trigger] lang_spec(e) == Option::Some("Clojure"@) <==> (e == "clj"@ || e == "cljs"@) by {
        lemma_clojure_extensions(e);
    }
    assert forall|e: Seq<char>| #[trigger] lang_spec(e) == Option::Some("R"@) <==> (e == "r"@) by {
        lemma_r_extensions(e);
    }
    assert forall|e: Seq<char>| #[trigger] lang_spec(e) == Option::Some("PHP"@) <==> (e == "php"@) by {
        lemma_php_extensions(e);
    }
    assert forall|e: Seq<char>| #[trigger] lang_spec(e) == Option::Some("Perl"@) <==> (e == "pl"@ || e == "pm"@) by {
        lemma_perl_extensions(e);
    }
    assert forall|e: Seq<char>| #[trigger] lang_spec(e) == Option::Some("Vue"@) <==> (e == "vue"@) by {
        lemma_vue_extensions(e);
    }
    assert forall|e: Seq<char>| #[trigger] lang_spec(e) == Option::Some("Svelte"@) <==> (e == "svelte"@) by {
        lemma_svelte_extensions(e);
    }
}

} // verus!
