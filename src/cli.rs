use vstd::prelude::*;

pub mod logging;

verus! {

/// The lower-case form of a text, as std gives it.
pub uninterp spec fn lower_of(s: Seq<char>) -> Seq<char>;

/// Relies on str::to_lowercase: the lower-case form of a text depends on its characters alone.
#[verifier::external_body]
fn lowercase(s: &str) -> (r: String)
    ensures
        r@ == lower_of(s@),
{
    s.to_lowercase()
}

/// Whether two texts are equal.
fn same_text(a: &str, b: &str) -> (r: bool)
    ensures
        r == (a@ == b@),
{
    String::from_str(a) == String::from_str(b)
}

/// `prefix`, then `s`, then a closing quote.
fn quoted_error(prefix: &str, s: &str) -> (r: String)
    ensures
        r@ == prefix@ + s@ + "'"@,
{
    let mut e = String::from_str(prefix);
    e.append(s);
    e.append("'");
    e
}

/// Everything the tool is told on its command line.
pub struct Opts {
    pub input: Input,
    pub output: Output,
    pub log: logging::Opts,
}

/// Where and how the document is written.
pub struct Output {
    /// Output directory; `--` for standard output.
    pub dir: String,
    /// Whether files in the output directory may be overwritten.
    pub force: bool,
    pub format: OutputFmt,
    /// Whether assets are inlined into the document.
    pub inline: bool,
}

#[derive(Clone, Copy, Debug, PartialEq, Eq, Structural)]
pub enum OutputFmt {
    Markdown,
    Html,
    Json,
    Yaml,
}

/// The output format that a lower-case name selects.
pub open spec fn output_fmt_named(name: Seq<char>) -> Option<OutputFmt> {
    if name == "md"@ {
        Some(OutputFmt::Markdown)
    } else if name == "html"@ {
        Some(OutputFmt::Html)
    } else if name == "json"@ {
        Some(OutputFmt::Json)
    } else {
        None
    }
}

impl OutputFmt {
    /// The format that a lower-case name selects: `md`, `html` or `json`.
    pub fn from_lowercase(name: &str) -> (r: Option<OutputFmt>)
        ensures
            r == output_fmt_named(name@),
    {
        if same_text(name, "md") {
            Some(OutputFmt::Markdown)
        } else if same_text(name, "html") {
            Some(OutputFmt::Html)
        } else if same_text(name, "json") {
            Some(OutputFmt::Json)
        } else {
            None
        }
    }

    /// The format named by `s` in any case.
    pub fn parse(s: &str) -> (r: Result<OutputFmt, String>)
        ensures
            match output_fmt_named(lower_of(s@)) {
                Some(f) => r == Ok::<OutputFmt, String>(f),
                None => r is Err && r->Err_0@ == "Unsupported output format '"@ + s@ + "'"@,
            },
    {
        let lower = lowercase(s);
        match OutputFmt::from_lowercase(lower.as_str()) {
            Some(f) => Ok(f),
            None => Err(quoted_error("Unsupported output format '", s)),
        }
    }
}

impl std::str::FromStr for OutputFmt {
    type Err = String;

    fn from_str(s: &str) -> Result<Self, Self::Err> {
        OutputFmt::parse(s)
    }
}

/// Where the input and its dependencies come from.
pub struct Input {
    pub online: InputNet,
    pub offline: InputFs,
    pub dialect: Dialect,
}

/// The input file and where its dependencies are searched on disk.
pub struct InputFs {
    pub path: String,
    pub kind: InputType,
    /// Directories or files searched for dependencies.
    pub dependencies: Vec<String>,
    pub search_recursive: bool,
    pub follow_symlinks: bool,
}

/// The nodes that dependencies are asked from.
pub struct InputNet {
    /// Whether no node is asked.
    pub offline: bool,
    /// URIs of the nodes.
    pub ds: Vec<String>,
}

#[derive(Clone, Copy, Debug, PartialEq, Eq, Structural)]
pub enum InputType {
    Script,
    Module,
    Auto,
}

/// The input type that a lower-case name selects.
pub open spec fn input_type_named(name: Seq<char>) -> Option<InputType> {
    if name == "auto"@ {
        Some(InputType::Auto)
    } else if name == "script"@ {
        Some(InputType::Script)
    } else if name == "module"@ {
        Some(InputType::Module)
    } else {
        None
    }
}

impl InputType {
    /// The input type that a lower-case name selects: `auto`, `script` or `module`.
    pub fn from_lowercase(name: &str) -> (r: Option<InputType>)
        ensures
            r == input_type_named(name@),
    {
        if same_text(name, "auto") {
            Some(InputType::Auto)
        } else if same_text(name, "script") {
            Some(InputType::Script)
        } else if same_text(name, "module") {
            Some(InputType::Module)
        } else {
            None
        }
    }

    /// The input type named by `s` in any case.
    pub fn parse(s: &str) -> (r: Result<InputType, String>)
        ensures
            match input_type_named(lower_of(s@)) {
                Some(t) => r == Ok::<InputType, String>(t),
                None => r is Err && r->Err_0@ == "Unsupported input type '"@ + s@ + "'"@,
            },
    {
        let lower = lowercase(s);
        match InputType::from_lowercase(lower.as_str()) {
            Some(t) => Ok(t),
            None => Err(quoted_error("Unsupported input type '", s)),
        }
    }
}

impl std::str::FromStr for InputType {
    type Err = String;

    fn from_str(s: &str) -> Result<Self, Self::Err> {
        InputType::parse(s)
    }
}

#[derive(Clone, Copy, Debug, PartialEq, Eq, Structural)]
pub enum Dialect {
    Dfinance,
    Libra,
}

/// The dialect that a lower-case name selects.
pub open spec fn dialect_named(name: Seq<char>) -> Option<Dialect> {
    if name == "dfi"@ {
        Some(Dialect::Dfinance)
    } else if name == "libra"@ {
        Some(Dialect::Libra)
    } else {
        None
    }
}

impl Dialect {
    /// The dialect that a lower-case name selects: `dfi` or `libra`.
    pub fn from_lowercase(name: &str) -> (r: Option<Dialect>)
        ensures
            r == dialect_named(name@),
    {
        if same_text(name, "dfi") {
            Some(Dialect::Dfinance)
        } else if same_text(name, "libra") {
            Some(Dialect::Libra)
        } else {
            None
        }
    }

    /// The dialect named by `s` in any case.
    pub fn parse(s: &str) -> (r: Result<Dialect, String>)
        ensures
            match dialect_named(lower_of(s@)) {
                Some(d) => r == Ok::<Dialect, String>(d),
                None => r is Err && r->Err_0@ == "Unsupported output format '"@ + s@ + "'"@,
            },
    {
        let lower = lowercase(s);
        match Dialect::from_lowercase(lower.as_str()) {
            Some(d) => Ok(d),
            None => Err(quoted_error("Unsupported output format '", s)),
        }
    }
}

impl std::str::FromStr for Dialect {
    type Err = String;

    fn from_str(s: &str) -> Result<Self, Self::Err> {
        Dialect::parse(s)
    }
}

} // verus!
