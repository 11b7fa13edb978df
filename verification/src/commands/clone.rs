//! Setting up a working tree from a remote.

pub mod asked;
pub mod placed;
pub mod populate;
pub mod remote;
pub mod setup;

use self::remote::{is_empty, remote_display_url, RemoteConfig};
use self::setup::{resolve_intent_noninteractive, validate_intent_flags, RemoteIntent};
use crate::error::Error;
use crate::object::ObjectHash;
use crate::text::{self, concat, concat3, decimal_of, starts_with, str_eq, strip_prefix};
use vstd::prelude::*;
use vstd::string::*;

verus! {

/// What the command was asked for.
pub struct CloneOptions {
    /// The address of the remote; without one it is asked for.
    pub url: Option<String>,
    /// A key is generated; only valid for a new repository.
    pub encrypt: bool,
    /// The remote is declared to be a new, empty one.
    pub new: bool,
    /// The remote is declared to be an existing one.
    pub existing: bool,
    pub directory: String,
    pub stub_threshold: u64,
    pub force: bool,
}

/// What every connection string starts with.
pub const CONNECTION_PREFIX: &'static str = "omemfs_repo_";

/// Where the configuration comes from.
#[derive(Clone, Copy, Debug, PartialEq, Eq, Structural)]
pub enum ConfigSource {
    /// A connection string holds it.
    Connection,
    /// It is built from an address; a key is generated for it or not.
    Address { intent: RemoteIntent, generate_key: bool },
    /// It is asked for.
    Prompt,
}

/// The configuration's source for an address, a connection string or neither, or the
/// complaint.
pub open spec fn source_of(
    url: Option<Seq<char>>,
    new: bool,
    existing: bool,
    encrypt: bool,
    terminal: bool,
    no_terminal: Seq<char>,
) -> Result<ConfigSource, Seq<char>> {
    match setup::flag_conflict(new, existing, encrypt) {
        Some(m) => Err(m),
        None => match url {
            Some(u) => if text::has_prefix(u, CONNECTION_PREFIX@) {
                if encrypt {
                    Err("--encrypt cannot be used with a connection string"@)
                } else {
                    Ok(ConfigSource::Connection)
                }
            } else {
                match setup::declared(new, existing, encrypt) {
                    Some(intent) => Ok(
                        ConfigSource::Address {
                            intent,
                            generate_key: intent == RemoteIntent::New && encrypt,
                        },
                    ),
                    None => Err(
                        "cannot determine remote intent in non-interactive mode\nPass --new or --existing to specify whether this is a new or existing repository."@,
                    ),
                }
            },
            None => if terminal {
                Ok(ConfigSource::Prompt)
            } else {
                Err(no_terminal)
            },
        },
    }
}

fn find_source(
    url: &Option<String>,
    new: bool,
    existing: bool,
    encrypt: bool,
    terminal: bool,
    no_terminal: &str,
) -> (r: Result<ConfigSource, Error>)
    ensures
        match r {
            Ok(s) => source_of(
                text::opt_view(*url),
                new,
                existing,
                encrypt,
                terminal,
                no_terminal@,
            ) == Ok::<ConfigSource, Seq<char>>(s),
            Err(e) => e matches Error::Other(s) && source_of(
                text::opt_view(*url),
                new,
                existing,
                encrypt,
                terminal,
                no_terminal@,
            ) == Err::<ConfigSource, Seq<char>>(s@),
        },
{
    match validate_intent_flags(new, existing, encrypt) {
        Ok(()) => {},
        Err(e) => {
            return Err(e);
        },
    }
    match url {
        Some(u) => {
            if starts_with(u.as_str(), CONNECTION_PREFIX) {
                if encrypt {
                    return Err(
                        Error::Other("--encrypt cannot be used with a connection string".to_owned()),
                    );
                }
                return Ok(ConfigSource::Connection);
            }
            match resolve_intent_noninteractive(new, existing, encrypt) {
                Ok(intent) => Ok(
                    ConfigSource::Address {
                        intent,
                        generate_key: intent == RemoteIntent::New && encrypt,
                    },
                ),
                Err(e) => Err(e),
            }
        },
        None => {
            if terminal {
                Ok(ConfigSource::Prompt)
            } else {
                Err(Error::Other(no_terminal.to_owned()))
            }
        },
    }
}

/// What was found out before a clone starts.
#[derive(Clone, Copy)]
pub struct CloneFacts {
    /// Whether the directory exists.
    pub exists: bool,
    /// Whether it could be listed and holds nothing.
    pub is_empty: bool,
    /// Whether there is a terminal to ask at.
    pub terminal: bool,
}

/// Decides whether a clone may start and where its configuration comes from. A
/// directory that holds something is refused unless it was forced.
pub fn run(opts: &CloneOptions, facts: CloneFacts) -> (r: Result<ConfigSource, Error>)
    ensures
        ({
            let refused = facts.exists && !facts.is_empty && !opts.force;
            let source = source_of(
                text::opt_view(opts.url),
                opts.new,
                opts.existing,
                opts.encrypt,
                facts.terminal,
                "interactive setup required; run omemfs clone in a terminal"@,
            );
            match r {
                Ok(s) => !refused && source == Ok::<ConfigSource, Seq<char>>(s),
                Err(e) => e matches Error::Other(s) && if refused {
                    s@ == "directory '"@ + opts.directory@
                        + "' is not empty; use --force to clone into a non-empty directory"@
                } else {
                    source == Err::<ConfigSource, Seq<char>>(s@)
                },
            }
        }),
{
    if facts.exists && !facts.is_empty && !opts.force {
        return Err(
            Error::Other(
                concat3(
                    "directory '",
                    opts.directory.as_str(),
                    "' is not empty; use --force to clone into a non-empty directory",
                ),
            ),
        );
    }
    find_source(
        &opts.url,
        opts.new,
        opts.existing,
        opts.encrypt,
        facts.terminal,
        "interactive setup required; run omemfs clone in a terminal",
    )
}

/// The remote that is cloned from, or the complaint that there is none.
pub fn origin_of(origin: Option<&RemoteConfig>) -> (r: Result<&RemoteConfig, Error>)
    ensures
        match r {
            Ok(c) => origin == Some(c),
            Err(e) => origin is None && (e matches Error::Other(s) && s@
                == "origin remote not configured"@),
        },
{
    match origin {
        Some(c) => Ok(c),
        None => Err(Error::Other("origin remote not configured".to_owned())),
    }
}

/// What is said when the transfer starts.
pub fn clone_banner(origin: &RemoteConfig) -> (r: String)
    ensures
        r@ == "Cloning from "@ + remote::display_of(origin.place()) + " ..."@,
{
    concat3("Cloning from ", remote_display_url(origin).as_str(), " ...")
}

/// What is said of the remote's root.
pub open spec fn root_line(root: Option<ObjectHash>) -> Seq<char> {
    match root {
        None => "Remote is empty. Initialised empty repository."@,
        Some(h) => "Remote root: "@ + h.short(),
    }
}

/// What is said of the remote's root.
pub fn describe_root(root: Option<ObjectHash>) -> (r: String)
    ensures
        r@ == root_line(root),
{
    match root {
        None => "Remote is empty. Initialised empty repository.".to_owned(),
        Some(h) => concat("Remote root: ", h.to_short().as_str()),
    }
}

/// The lines at the end of a clone.
pub open spec fn clone_report_lines(
    expanded: nat,
    stubbed: nat,
    skipped: nat,
    threshold: u64,
    directory: Seq<char>,
) -> Seq<Seq<char>> {
    let first = if threshold > 0 && stubbed > 0 {
        text::decimal(expanded) + " file(s) expanded, "@ + text::decimal(stubbed)
            + " file(s) stubbed (>= "@ + text::decimal(threshold as nat)
            + " bytes).\nCloned into "@ + directory
    } else {
        text::decimal(expanded) + " file(s) expanded.\nCloned into "@ + directory
    };
    if skipped > 0 {
        seq![first, text::decimal(skipped) + " existing path(s) skipped."@]
    } else {
        seq![first]
    }
}

/// The lines at the end of a clone.
pub fn clone_report(
    expanded: usize,
    stubbed: usize,
    skipped: usize,
    threshold: u64,
    directory: &str,
) -> (r: Vec<String>)
    ensures
        text::views(r@) == clone_report_lines(
            expanded as nat,
            stubbed as nat,
            skipped as nat,
            threshold,
            directory@,
        ),
{
    let mut out: Vec<String> = Vec::new();
    let mut first: String = decimal_of(expanded as u64);
    if threshold > 0 && stubbed > 0 {
        first.append(" file(s) expanded, ");
        first.append(decimal_of(stubbed as u64).as_str());
        first.append(" file(s) stubbed (>= ");
        first.append(decimal_of(threshold).as_str());
        first.append(" bytes).\nCloned into ");
        first.append(directory);
    } else {
        first.append(" file(s) expanded.\nCloned into ");
        first.append(directory);
    }
    out.push(first);
    if skipped > 0 {
        out.push(concat(decimal_of(skipped as u64).as_str(), " existing path(s) skipped."));
    }
    assert(text::views(out@) =~= clone_report_lines(
        expanded as nat,
        stubbed as nat,
        skipped as nat,
        threshold,
        directory@,
    ));
    out
}

/// Whether the template of the filter file is written: there is none yet.
pub fn write_default_filter(filter_exists: bool) -> (r: bool)
    ensures
        r == !filter_exists,
{
    !filter_exists
}

// ---------------------------------------------------------------------------
// Asking
// ---------------------------------------------------------------------------

/// What was entered where a remote was asked for.
#[derive(Clone, Copy, Debug, PartialEq, Eq, Structural)]
pub enum Entered {
    /// Nothing: the menu follows.
    Menu,
    /// A connection string.
    Connection,
    /// An address.
    Address,
}

/// What a line stands for.
pub open spec fn entered(line: Seq<char>) -> Entered {
    if line.len() == 0 {
        Entered::Menu
    } else if text::has_prefix(line, CONNECTION_PREFIX@) {
        Entered::Connection
    } else {
        Entered::Address
    }
}

/// What a line stands for that was entered where a remote was asked for.
pub fn classify_input(line: &str) -> (r: Entered)
    ensures
        r == entered(line@),
{
    if is_empty(line) {
        Entered::Menu
    } else if starts_with(line, CONNECTION_PREFIX) {
        Entered::Connection
    } else {
        Entered::Address
    }
}

/// What is said before the first question.
pub fn prompt_hint() -> (r: Vec<String>)
    ensures
        text::views(r@) == seq![
            "Hint: if you have already cloned this repository on another machine, run"@,
            "  omemfs config export"@,
            "to get an omemfs_repo_... connection string that fills in all parameters at once."@,
            ""@,
        ],
{
    let mut out: Vec<String> = Vec::new();
    out.push("Hint: if you have already cloned this repository on another machine, run".to_owned());
    out.push("  omemfs config export".to_owned());
    out.push(
        "to get an omemfs_repo_... connection string that fills in all parameters at once.".to_owned(),
    );
    out.push("".to_owned());
    assert(text::views(out@) =~= seq![
        "Hint: if you have already cloned this repository on another machine, run"@,
        "  omemfs config export"@,
        "to get an omemfs_repo_... connection string that fills in all parameters at once."@,
        ""@,
    ]);
    out
}

/// Whether the answer to the question for a backup remote is yes.
pub fn wants_backup(answer: &str) -> (r: bool)
    ensures
        r == setup::is_letter(answer@, "y"@, "Y"@),
{
    let t = crate::text::trim(answer);
    str_eq(t.as_str(), "y") || str_eq(t.as_str(), "Y")
}

// ---------------------------------------------------------------------------
// Connection strings
// ---------------------------------------------------------------------------

/// The connection string around an encoded configuration.
pub fn encode_connection_string(encoded: &str) -> (r: String)
    ensures
        r@ == CONNECTION_PREFIX@ + encoded@,
{
    concat(CONNECTION_PREFIX, encoded)
}

/// The encoded configuration within a connection string.
pub fn parse_connection_string(s: &str) -> (r: Result<String, Error>)
    ensures
        match r {
            Ok(encoded) => text::has_prefix(s@, CONNECTION_PREFIX@) && encoded@ == s@.skip(
                CONNECTION_PREFIX@.len() as int,
            ),
            Err(e) => !text::has_prefix(s@, CONNECTION_PREFIX@) && (e matches Error::Other(m)
                && m@ == "invalid connection string: missing omemfs_repo_ prefix"@),
        },
{
    match strip_prefix(s, CONNECTION_PREFIX) {
        Some(encoded) => Ok(encoded),
        None => Err(
            Error::Other("invalid connection string: missing omemfs_repo_ prefix".to_owned()),
        ),
    }
}

/// Parsing a connection string gives back what was put into it.
pub proof fn law_connection_string_round_trip(encoded: Seq<char>)
    ensures
        text::has_prefix(CONNECTION_PREFIX@ + encoded, CONNECTION_PREFIX@),
        (CONNECTION_PREFIX@ + encoded).skip(CONNECTION_PREFIX@.len() as int) == encoded,
        entered(CONNECTION_PREFIX@ + encoded) == Entered::Connection,
{
    reveal_strlit("omemfs_repo_");
    assert((CONNECTION_PREFIX@ + encoded).take(CONNECTION_PREFIX@.len() as int)
        =~= CONNECTION_PREFIX@);
    assert((CONNECTION_PREFIX@ + encoded).skip(CONNECTION_PREFIX@.len() as int) =~= encoded);
}

/// The complaint about a connection string that cannot be decoded, by its cause.
pub fn undecodable(not_json: bool, cause: &str) -> (r: Error)
    ensures
        r matches Error::Other(s) && s@ == (if not_json {
            "invalid connection string (JSON parse error): "@
        } else {
            "invalid connection string: "@
        }) + cause@,
{
    if not_json {
        Error::Other(concat("invalid connection string (JSON parse error): ", cause))
    } else {
        Error::Other(concat("invalid connection string: ", cause))
    }
}

/// What is said of the remotes that a connection string holds.
pub open spec fn import_lines(origin: Option<&RemoteConfig>, backup: Option<&RemoteConfig>) -> Seq<
    Seq<char>,
> {
    (match origin {
        Some(c) => seq![
            "Importing config from connection string..."@,
            "  origin: "@ + remote::display_of(c.place()),
        ],
        None => seq![],
    }) + (match backup {
        Some(c) => seq!["  backup: "@ + remote::display_of(c.place())],
        None => seq![],
    })
}

/// What is said of the remotes that a connection string holds.
pub fn describe_import(origin: Option<&RemoteConfig>, backup: Option<&RemoteConfig>) -> (r: Vec<
    String,
>)
    ensures
        text::views(r@) == import_lines(origin, backup),
{
    let mut out: Vec<String> = Vec::new();
    if let Some(c) = origin {
        out.push("Importing config from connection string...".to_owned());
        out.push(concat("  origin: ", remote_display_url(c).as_str()));
    }
    if let Some(c) = backup {
        out.push(concat("  backup: ", remote_display_url(c).as_str()));
    }
    assert(text::views(out@) =~= import_lines(origin, backup));
    out
}

// ---------------------------------------------------------------------------
// Adding a backup
// ---------------------------------------------------------------------------

/// What the command that adds a backup was asked for.
pub struct AddBackupOptions {
    pub work_dir: String,
    pub force: bool,
    pub url: Option<String>,
    pub new: bool,
    pub existing: bool,
    pub encrypt: bool,
}

/// Decides whether a backup may be added and where its configuration comes from. One
/// that is there is replaced only if that was forced.
pub fn run_add_backup(opts: &AddBackupOptions, has_backup: bool, terminal: bool) -> (r: Result<
    ConfigSource,
    Error,
>)
    ensures
        ({
            let refused = has_backup && !opts.force;
            let source = source_of(
                text::opt_view(opts.url),
                opts.new,
                opts.existing,
                opts.encrypt,
                terminal,
                "interactive setup required; run omemfs config add-backup in a terminal"@,
            );
            match r {
                Ok(s) => !refused && source == Ok::<ConfigSource, Seq<char>>(s),
                Err(e) => e matches Error::Other(s) && if refused {
                    s@ == "backup remote already configured; use --force to overwrite"@
                } else {
                    source == Err::<ConfigSource, Seq<char>>(s@)
                },
            }
        }),
{
    if has_backup && !opts.force {
        return Err(
            Error::Other("backup remote already configured; use --force to overwrite".to_owned()),
        );
    }
    find_source(
        &opts.url,
        opts.new,
        opts.existing,
        opts.encrypt,
        terminal,
        "interactive setup required; run omemfs config add-backup in a terminal",
    )
}

/// The backup that a connection string holds, or the complaint that it holds none.
pub fn imported_backup(backup: Option<RemoteConfig>) -> (r: Result<RemoteConfig, Error>)
    ensures
        match r {
            Ok(c) => backup == Some(c),
            Err(e) => backup is None && (e matches Error::Other(s) && s@
                == "connection string has no 'backup' remote"@),
        },
{
    match backup {
        Some(c) => Ok(c),
        None => Err(Error::Other("connection string has no 'backup' remote".to_owned())),
    }
}

} // verus!
