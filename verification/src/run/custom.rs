//! Custom blocks: a function the user wrote, in Python, TypeScript,
//! JavaScript or shell, run as a block.
//!
//! What is decided here: where the code is (the user's own file, so a
//! traceback names the path they are editing, or the inline code, written
//! out under a name of its own), which program runs it, and the small
//! driver that loads the code, calls the function with the block's
//! arguments and writes what it returned. Writing the files and running the
//! program are the daemon's. What a failure says is `last_meaningful_line`.
use vstd::prelude::*;
use crate::text::{append, joined, join_path, owned};

verus! {

/// Where the block's code is kept.
#[derive(Debug, Clone, Copy, PartialEq, Eq, Structural)]
pub enum SourceMode {
    File,
    Inline,
}

#[derive(Debug, Clone, Copy, PartialEq, Eq, Structural)]
pub enum Language {
    Python,
    Typescript,
    Javascript,
    Shell,
}

/// What runs the code.
#[derive(Debug, Clone, Copy, PartialEq, Eq, Structural)]
pub enum Program {
    /// The workspace's Python.
    Python,
    /// Node, told to strip types, which is what makes a `.ts` block and a
    /// `.js` block the same kind of block.
    Node,
    /// A shell: the script is the body, and the ports arrive as environment
    /// variables.
    Shell,
}

/// The code itself: a file of the user's, or inline code to be written out
/// with this extension.
pub enum Module {
    File(String),
    Inline { code: String, extension: String },
}

/// Everything the daemon needs to run a custom block.
pub struct CustomJob {
    pub module: Module,
    pub program: Program,
    /// The driver that calls the function; empty for a shell block, which
    /// has no function to call.
    pub driver: String,
    /// The extension the driver is written out with.
    pub driver_extension: String,
}

/// How Rust's `{:?}` writes a string: in double quotes, with what needs it
/// escaped.
pub uninterp spec fn debug_quoted(s: Seq<char>) -> Seq<char>;

pub open spec fn plain_name(s: Seq<char>) -> bool {
    forall|i: int| 0 <= i < s.len() ==> {
        let c = #[trigger] s[i];
        ('a' <= c <= 'z') || ('A' <= c <= 'Z') || ('0' <= c <= '9') || c == '_'
    }
}

/// A string as `{:?}` writes it. The standard library's `Debug` for `str`
/// quotes it and escapes each character with `char::escape_debug`, which
/// leaves ASCII letters, digits and `_` as they are.
#[verifier::external_body]
fn quoted(s: &str) -> (q: String)
    ensures
        q@ == debug_quoted(s@),
        plain_name(s@) ==> q@ == seq!['"'] + s@ + seq!['"'],
{
    format!("{:?}", s)
}

pub open spec fn python_driver_of(function: Seq<char>) -> Seq<char> {
    "import builtins, importlib.util, json, sys\n\n# The type names, so an annotation written with them resolves.\n# Subscriptable, so `Optional[Image]` and `list[Data]` work too.\nclass _Type:\n    def __class_getitem__(cls, item):\n        return cls\n\nfor _name in (\"Text\", \"Data\", \"Image\", \"Audio\", \"File\", \"Stream\", \"Tools\", \"Memory\", \"Exec\"):\n    if not hasattr(builtins, _name):\n        setattr(builtins, _name, type(_name, (_Type,), {}))\n\n_spec = importlib.util.spec_from_file_location(\"cyberloom_block\", sys.argv[1])\n_module = importlib.util.module_from_spec(_spec)\n_spec.loader.exec_module(_module)\n\n_fn = getattr(_module, "@
        + debug_quoted(function)
        + ", None)\nif _fn is None:\n    raise NameError(\"the file has no function called "@
        + function
        + "\")\n\n_out = _fn(**json.loads(sys.argv[2]))\nwith open(sys.argv[3], \"w\") as _f:\n    json.dump(_out, _f, default=str)\n"@
}

pub open spec fn node_driver_of(function: Seq<char>) -> Seq<char> {
    "import { writeFileSync } from 'node:fs';\nimport { pathToFileURL } from 'node:url';\n\nconst module = await import(pathToFileURL(process.argv[2]).href);\nconst fn = module["@
        + debug_quoted(function)
        + "] ?? module.default;\nif (typeof fn !== 'function') {\n  throw new Error('the file exports no function called "@
        + function
        + "');\n}\nconst args = JSON.parse(process.argv[3]);\nconst out = await fn(...Object.values(args));\nwriteFileSync(process.argv[4], JSON.stringify(out ?? null));\n"@
}

/// The driver that loads a Python file and calls `function` with the
/// block's arguments by name.
pub fn python_driver(function: &str) -> (d: String)
    ensures
        d@ == python_driver_of(function@),
{
    let mut d = owned("import builtins, importlib.util, json, sys\n\n# The type names, so an annotation written with them resolves.\n# Subscriptable, so `Optional[Image]` and `list[Data]` work too.\nclass _Type:\n    def __class_getitem__(cls, item):\n        return cls\n\nfor _name in (\"Text\", \"Data\", \"Image\", \"Audio\", \"File\", \"Stream\", \"Tools\", \"Memory\", \"Exec\"):\n    if not hasattr(builtins, _name):\n        setattr(builtins, _name, type(_name, (_Type,), {}))\n\n_spec = importlib.util.spec_from_file_location(\"cyberloom_block\", sys.argv[1])\n_module = importlib.util.module_from_spec(_spec)\n_spec.loader.exec_module(_module)\n\n_fn = getattr(_module, ");
    let q = quoted(function);
    append(&mut d, q.as_str());
    append(&mut d, ", None)\nif _fn is None:\n    raise NameError(\"the file has no function called ");
    append(&mut d, function);
    append(&mut d, "\")\n\n_out = _fn(**json.loads(sys.argv[2]))\nwith open(sys.argv[3], \"w\") as _f:\n    json.dump(_out, _f, default=str)\n");
    d
}

/// The driver that imports a module in Node and calls `function` with the
/// block's arguments in order, or the module's default export.
pub fn node_driver(function: &str) -> (d: String)
    ensures
        d@ == node_driver_of(function@),
{
    let mut d = owned("import { writeFileSync } from 'node:fs';\nimport { pathToFileURL } from 'node:url';\n\nconst module = await import(pathToFileURL(process.argv[2]).href);\nconst fn = module[");
    let q = quoted(function);
    append(&mut d, q.as_str());
    append(&mut d, "] ?? module.default;\nif (typeof fn !== 'function') {\n  throw new Error('the file exports no function called ");
    append(&mut d, function);
    append(&mut d, "');\n}\nconst args = JSON.parse(process.argv[3]);\nconst out = await fn(...Object.values(args));\nwriteFileSync(process.argv[4], JSON.stringify(out ?? null));\n");
    d
}

pub open spec fn inline_extension(language: Language) -> Seq<char> {
    match language {
        Language::Python => "py"@,
        Language::Typescript => "ts"@,
        _ => "mjs"@,
    }
}

pub open spec fn program_of(language: Language) -> Program {
    match language {
        Language::Python => Program::Python,
        Language::Shell => Program::Shell,
        _ => Program::Node,
    }
}

pub open spec fn driver_of(language: Language, function: Seq<char>) -> Seq<char> {
    match language {
        Language::Python => python_driver_of(function),
        Language::Shell => Seq::<char>::empty(),
        _ => node_driver_of(function),
    }
}

pub open spec fn driver_extension_of(language: Language) -> Seq<char> {
    match language {
        Language::Python => "py"@,
        Language::Shell => Seq::<char>::empty(),
        _ => "mjs"@,
    }
}

/// What a custom block is given to run, as the contracts see it: where its
/// code is (true and the full path for a file, false and the code for
/// inline code), the inline code's extension, and its program, driver and
/// driver extension.
pub open spec fn custom_job_of(
    mode: SourceMode,
    file: Option<Seq<char>>,
    inline: Option<Seq<char>>,
    language: Language,
    function: Seq<char>,
    root: Seq<char>,
) -> Result<(bool, Seq<char>, Seq<char>, Program, Seq<char>, Seq<char>), Seq<char>> {
    match mode {
        SourceMode::File => match file {
            None => Err("the block is in file mode but names no file"@),
            Some(p) => Ok((true, joined(root, p), Seq::<char>::empty(), program_of(language), driver_of(language, function), driver_extension_of(language))),
        },
        SourceMode::Inline => match inline {
            None => Err("the block is in inline mode but holds no code"@),
            Some(c) => Ok((false, c, inline_extension(language), program_of(language), driver_of(language, function), driver_extension_of(language))),
        },
    }
}

pub open spec fn job_view(j: CustomJob) -> (bool, Seq<char>, Seq<char>, Program, Seq<char>, Seq<char>) {
    match j.module {
        Module::File(p) => (true, p@, Seq::<char>::empty(), j.program, j.driver@, j.driver_extension@),
        Module::Inline { code, extension } => (false, code@, extension@, j.program, j.driver@, j.driver_extension@),
    }
}

pub open spec fn opt_seq(o: Option<&str>) -> Option<Seq<char>> {
    match o {
        Some(s) => Some(s@),
        None => None,
    }
}

/// Decide how a custom block runs: where its code is, what runs it and the
/// driver that calls its function. A file is relative to the workspace
/// unless it is absolute; that it exists is for the daemon to find out.
pub fn custom_job(mode: SourceMode, file: Option<&str>, inline: Option<&str>, language: Language, function: &str, root: &str) -> (r: Result<CustomJob, String>)
    ensures
        match r {
            Ok(j) => custom_job_of(mode, opt_seq(file), opt_seq(inline), language, function@, root@) == Ok::<_, Seq<char>>(job_view(j)),
            Err(e) => custom_job_of(mode, opt_seq(file), opt_seq(inline), language, function@, root@) == Err::<(bool, Seq<char>, Seq<char>, Program, Seq<char>, Seq<char>), Seq<char>>(e@),
        },
{
    let module = match mode {
        SourceMode::File => match file {
            None => return Err(owned("the block is in file mode but names no file")),
            Some(p) => Module::File(join_path(root, p)),
        },
        SourceMode::Inline => match inline {
            None => return Err(owned("the block is in inline mode but holds no code")),
            Some(c) => {
                let extension = match language {
                    Language::Python => owned("py"),
                    Language::Typescript => owned("ts"),
                    _ => owned("mjs"),
                };
                Module::Inline { code: owned(c), extension }
            },
        },
    };
    let (program, driver, driver_extension) = match language {
        Language::Python => (Program::Python, python_driver(function), owned("py")),
        Language::Shell => (Program::Shell, String::new(), String::new()),
        _ => (Program::Node, node_driver(function), owned("mjs")),
    };
    proof {
        reveal_strlit("py");
        reveal_strlit("ts");
        reveal_strlit("mjs");
    }
    Ok(CustomJob { module, program, driver, driver_extension })
}

} // verus!

verus! {

/// What a file-mode block says when its file is missing.
pub fn not_there(path: &str) -> (s: String)
    ensures
        s@ == path@ + " is not there"@,
{
    let mut s = owned(path);
    append(&mut s, " is not there");
    s
}

} // verus!
