//! Commands and data formats of the command-line tool, as plain values.
use vstd::prelude::*;
use vstd::string::StringSliceAdditionalSpecFns;
use vstd::utf8::encode_utf8;
use vstd::string::StringExecFns;

verus! {

/// Data formats the command-line tool reads and writes.
#[derive(Clone, Copy, Debug, PartialEq, Eq, Structural)]
pub enum Format {
    /// Rust debug formatting.
    Debug,
    /// Checksummed compact text.
    Bech32,
    Yaml,
    Json,
    /// Hex of the binary encoding.
    Hexadecimal,
    /// A Rust array of hexadecimal byte values.
    Rust,
    /// Raw binary encoding.
    Binary,
    /// The client-validated commitment.
    Commitment,
}

/// Name of the text left after trimming leading and trailing whitespace.
pub uninterp spec fn trimmed(s: Seq<char>) -> Seq<char>;

/// Name of the lowercase form of a text.
pub uninterp spec fn lowercased(s: Seq<char>) -> Seq<char>;

/// Relies on `str::trim`: the text without leading and trailing whitespace,
/// a function of the text alone.
#[verifier::external_body]
fn trim(s: &str) -> (r: &str)
    ensures
        r@ == trimmed(s@),
{
    s.trim()
}

/// Relies on `str::to_lowercase`: the lowercase form of the text, a
/// function of the text alone.
#[verifier::external_body]
fn to_lowercase(s: &str) -> (r: String)
    ensures
        r@ == lowercased(s@),
{
    s.to_lowercase()
}

/// The format a normalized (trimmed, lowercase) name stands for.
pub open spec fn format_named(b: Seq<u8>) -> Option<Format> {
    if b == "debug".spec_bytes() {
        Some(Format::Debug)
    } else if b == "bech32".spec_bytes() {
        Some(Format::Bech32)
    } else if b == "yaml".spec_bytes() {
        Some(Format::Yaml)
    } else if b == "json".spec_bytes() {
        Some(Format::Json)
    } else if b == "hex".spec_bytes() {
        Some(Format::Hexadecimal)
    } else if b == "raw".spec_bytes() || b == "bin".spec_bytes() || b == "binary".spec_bytes() {
        Some(Format::Binary)
    } else if b == "rust".spec_bytes() {
        Some(Format::Rust)
    } else if b == "commitment".spec_bytes() {
        Some(Format::Commitment)
    } else {
        None
    }
}

/// Whether two byte strings are equal.
fn bytes_eq(a: &[u8], b: &[u8]) -> (r: bool)
    ensures
        r == (a@ == b@),
{
    if a.len() != b.len() {
        return false;
    }
    let mut i: usize = 0;
    while i < a.len()
        invariant
            i <= a@.len(),
            a@.len() == b@.len(),
            forall|k: int| 0 <= k < i ==> a@[k] == b@[k],
        decreases a@.len() - i,
    {
        if a[i] != b[i] {
            return false;
        }
        i = i + 1;
    }
    assert(a@ =~= b@);
    true
}

/// The format named `b`, a normalized name.
pub fn format_from_name(b: &[u8]) -> (r: Option<Format>)
    ensures
        r == format_named(b@),
{
    if bytes_eq(b, "debug".as_bytes()) {
        Some(Format::Debug)
    } else if bytes_eq(b, "bech32".as_bytes()) {
        Some(Format::Bech32)
    } else if bytes_eq(b, "yaml".as_bytes()) {
        Some(Format::Yaml)
    } else if bytes_eq(b, "json".as_bytes()) {
        Some(Format::Json)
    } else if bytes_eq(b, "hex".as_bytes()) {
        Some(Format::Hexadecimal)
    } else if bytes_eq(b, "raw".as_bytes()) || bytes_eq(b, "bin".as_bytes()) || bytes_eq(b, "binary".as_bytes()) {
        Some(Format::Binary)
    } else if bytes_eq(b, "rust".as_bytes()) {
        Some(Format::Rust)
    } else if bytes_eq(b, "commitment".as_bytes()) {
        Some(Format::Commitment)
    } else {
        None
    }
}

impl Format {
    /// Parses a format name, ignoring surrounding whitespace and case; an
    /// unknown name gives the message `Unknown format: <name>`, the name
    /// normalized.
    pub fn from_str(s: &str) -> (r: Result<Format, String>)
        ensures
            match format_named(encode_utf8(lowercased(trimmed(s@)))) {
                Some(f) => r == Ok::<Format, String>(f),
                None => r matches Err(e) && e@ == "Unknown format: "@ + lowercased(trimmed(s@)),
            },
    {
        let name = to_lowercase(trim(s));
        match format_from_name(name.as_str().as_bytes()) {
            Some(f) => Ok(f),
            None => {
                let mut msg = String::from_str("Unknown format: ");
                msg.append(name.as_str());
                Err(msg)
            },
        }
    }
}

/// Command-line options: the command to execute.
#[derive(Clone, Debug)]
pub struct Opts {
    pub command: Command,
}

/// Top-level commands, one per kind of data.
#[derive(Clone, Debug)]
pub enum Command {
    Consignment { subcommand: ConsignmentCommand },
    Disclosure { subcommand: DisclosureCommand },
    Schema { subcommand: SchemaCommand },
    Anchor { subcommand: AnchorCommand },
    Extension { subcommand: ExtensionCommand },
    Transition { subcommand: TransitionCommand },
    Genesis { subcommand: GenesisCommand },
}

#[derive(Clone, Debug)]
pub enum ConsignmentCommand {
    Validate { consignment: Option<String>, schema: Option<String>, input: Format, electrum: String },
}

#[derive(Clone, Debug)]
pub enum DisclosureCommand {
    Convert { disclosure: Option<String>, input: Format, output: Format },
}

#[derive(Clone, Debug)]
pub enum SchemaCommand {
    Convert { schema: Option<String>, input: Format, output: Format },
}

/// Anchor commands: none are offered yet.
#[derive(Clone, Debug)]
pub struct AnchorCommand;

#[derive(Clone, Debug)]
pub enum ExtensionCommand {
    Convert { extension: Option<String>, input: Format, output: Format },
}

#[derive(Clone, Debug)]
pub enum TransitionCommand {
    Convert { transition: Option<String>, input: Format, output: Format },
}

#[derive(Clone, Debug)]
pub enum GenesisCommand {
    Convert { genesis: Option<String>, input: Format, output: Format },
}

} // verus!
