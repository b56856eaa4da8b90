//! The command-line interface's options, errors, and the choice of dataset parser.

use vstd::prelude::*;

use crate::dataset::{parse_error_text, ParseError};
use crate::trace::{capture_error_text, CaptureError};

verus! {

/// Command-line interface options. Paths are held as text.
#[derive(Debug, Clone, PartialEq, Eq)]
pub enum CliOptions {
    /// Capture a traffic trace.
    Capture {
        /// Path to output file.
        output: Option<String>,
        /// Name of the interface to use.
        ifname: Option<String>,
    },
    /// Get statistics about a trace.
    TraceStats {
        /// Path to trace file.
        input: String,
    },
    /// Get statistics about a dataset.
    DatasetStats {
        /// The type of dataset (available: tiktok).
        dataset_type: String,
        /// The path to the dataset directory.
        path: String,
    },
    /// Simulate defences.
    Simulate {
        /// The simulator subcommand to take.
        action: Sim,
    },
    /// Convert a pcap into a chaff trace.
    CapConvert {
        /// MAC address to use as the local one.
        mac: Option<String>,
        /// Path to input pcap file.
        pcap: String,
        /// Path to output trace file.
        trace: String,
    },
    /// Convert a dataset into the chaff trace format.
    DatasetConvert {
        /// The path to output the dataset to. Defaults to <INPUT>.chaff
        output: Option<String>,
        /// The type of dataset (available: tiktok).
        dataset_type: String,
        /// The path to the dataset directory.
        input: String,
    },
}

/// Available simulation modes.
#[derive(Debug, Clone, PartialEq, Eq)]
pub enum Sim {
    /// Simulate on a trace file.
    Trace {
        /// Path to output trace file.
        output: Option<String>,
        /// Path to input trace file.
        input: String,
    },
    /// Simulate on a full dataset.
    Dataset {
        /// Path to output dataset directory.
        output: Option<String>,
        /// The type of dataset (available: tiktok).
        dataset_type: String,
        /// Path to input dataset directory.
        input: String,
    },
}

/// CLI errors. Errors of the capture library and of MAC address handling are held as their
/// messages.
#[derive(Debug)]
pub enum CliError {
    /// Device specified but not found.
    DeviceNotFound(String),
    /// Errors from capturing and converting traces.
    Capture(CaptureError),
    /// A MAC address could not be looked up.
    MacAddress(String),
    /// A MAC address could not be parsed.
    MacParse(String),
    /// An error from the packet capture library.
    Pcap(String),
    /// Dataset type given is not known or implemented.
    UnknownDatasetType(String),
    /// Error from a dataset parser.
    Dataset(ParseError),
}

/// The text of a CLI error: a bold red `error:` label, then the error.
pub open spec fn cli_error_text(e: CliError) -> Seq<char> {
    "\x1b[1m\x1b[31merror:\x1b[0m "@ + match e {
        CliError::DeviceNotFound(d) => "device specified but not found: "@ + d@,
        CliError::Capture(c) => "capture error: "@ + capture_error_text(c),
        CliError::MacAddress(m) => "MAC address error: "@ + m@,
        CliError::MacParse(m) => "MAC parse error: "@ + m@,
        CliError::Pcap(m) => "pcap error: "@ + m@,
        CliError::UnknownDatasetType(t) => "unknown dataset type '"@ + t@ + "'"@,
        CliError::Dataset(p) => "dataset error: "@ + parse_error_text(p@),
    }
}

impl CliError {
    /// The error as text.
    pub fn to_string(&self) -> (r: String)
        ensures
            r@ == cli_error_text(*self),
    {
        let mut s = String::new();
        s.append("\x1b[1m\x1b[31merror:\x1b[0m ");
        match self {
            CliError::DeviceNotFound(d) => {
                s.append("device specified but not found: ");
                s.append(d.as_str());
            },
            CliError::Capture(c) => {
                s.append("capture error: ");
                let inner = c.to_string();
                s.append(inner.as_str());
            },
            CliError::MacAddress(m) => {
                s.append("MAC address error: ");
                s.append(m.as_str());
            },
            CliError::MacParse(m) => {
                s.append("MAC parse error: ");
                s.append(m.as_str());
            },
            CliError::Pcap(m) => {
                s.append("pcap error: ");
                s.append(m.as_str());
            },
            CliError::UnknownDatasetType(t) => {
                s.append("unknown dataset type '");
                s.append(t.as_str());
                s.append("'");
            },
            CliError::Dataset(p) => {
                s.append("dataset error: ");
                let inner = p.to_string();
                s.append(inner.as_str());
            },
        }
        s
    }
}

/// The MAC address that a string spells, as the `mac_address` crate's `MacAddress::from_str`
/// reads it: its six bytes, or the message of the parse error.
pub uninterp spec fn mac_address_parse(s: Seq<char>) -> Result<Seq<u8>, Seq<char>>;

/// `MacAddress::from_str` of the `mac_address` crate, through `str::parse`. Its result is named
/// `mac_address_parse` of the string (the parse depends on the string alone): the address's
/// bytes, or the parse error's message. What it accepts is left to that crate.
#[verifier::external_body]
fn parse_mac_address(s: &str) -> (r: Result<[u8; 6], String>)
    ensures
        match mac_address_parse(s@) {
            Ok(b) => r is Ok && r->Ok_0@ == b,
            Err(m) => r is Err && r->Err_0@ == m,
        },
{
    match s.parse::<mac_address::MacAddress>() {
        Ok(mac) => Ok(mac.bytes()),
        Err(e) => Err(e.to_string()),
    }
}

/// The local MAC address given on the command line, from the outcome of parsing it: the bytes,
/// or a `MacParse` error with the parse error's message.
pub fn mac_argument(parsed: Result<[u8; 6], String>) -> (r: Result<[u8; 6], CliError>)
    ensures
        match parsed {
            Ok(b) => r == Ok::<[u8; 6], CliError>(b),
            Err(m) => r matches Err(CliError::MacParse(t)) && t@ == m@,
        },
{
    match parsed {
        Ok(b) => Ok(b),
        Err(m) => Err(CliError::MacParse(m)),
    }
}

/// Parses the local MAC address given on the command line (see `mac_argument`).
pub fn parse_mac_argument(mac: &str) -> (r: Result<[u8; 6], CliError>)
    ensures
        match mac_address_parse(mac@) {
            Ok(b) => r is Ok && r->Ok_0@ == b,
            Err(m) => r matches Err(CliError::MacParse(t)) && t@ == m,
        },
{
    mac_argument(parse_mac_address(mac))
}

/// The kinds of dataset that can be read.
#[derive(Debug, Clone, Copy, PartialEq, Eq, Structural)]
pub enum DatasetType {
    /// The Tik-Tok dataset: text or binary trace files named `<class>-<instance>`.
    TikTok,
}

/// The lower-case form of a string, as `str::to_lowercase` gives it (by Unicode's lower-case
/// mappings).
pub uninterp spec fn lowercase(s: Seq<char>) -> Seq<char>;

/// std's `str::to_lowercase`; its result is named `lowercase` of its argument, as the function
/// is a function of the string alone.
#[verifier::external_body]
fn to_lowercase(s: &str) -> (r: String)
    ensures
        r@ == lowercase(s@),
{
    s.to_lowercase()
}

/// The kind of dataset a dataset type names, compared in lower case: `tiktok` names the Tik-Tok
/// dataset; any other type is an `UnknownDatasetType` error holding it in lower case.
pub fn parse_dataset(dataset_type: &str) -> (r: Result<DatasetType, CliError>)
    ensures
        lowercase(dataset_type@) == "tiktok"@ ==> r == Ok::<DatasetType, CliError>(
            DatasetType::TikTok,
        ),
        lowercase(dataset_type@) != "tiktok"@ ==> (r matches Err(CliError::UnknownDatasetType(t))
            && t@ == lowercase(dataset_type@)),
{
    let lower = to_lowercase(dataset_type);
    let tiktok = "tiktok".to_owned();
    if lower == tiktok {
        Ok(DatasetType::TikTok)
    } else {
        Err(CliError::UnknownDatasetType(lower))
    }
}

} // verus!
