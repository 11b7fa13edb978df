//! Asking for a remote: what is declared of it, and what is to be asked next.

use super::remote::{
    self, drop_prefix, expand_tilde, is_empty, split_slash, EncryptionConfig,
    PlaceView, RemoteConfig, DEFAULT_S3_REGION,
};
use crate::error::Error;
use crate::text::{self, chars_of, concat, concat3, str_eq, trim};
use vstd::prelude::*;

verus! {

// ---------------------------------------------------------------------------
// Intent
// ---------------------------------------------------------------------------

/// What is declared of a remote: it is to be created, or it is there.
#[derive(Clone, Copy, Debug, PartialEq, Eq, Structural)]
pub enum RemoteIntent {
    New,
    Existing,
}

/// Why flags cannot be combined.
pub open spec fn flag_conflict(new: bool, existing: bool, encrypt: bool) -> Option<Seq<char>> {
    if new && existing {
        Some("--new and --existing are mutually exclusive"@)
    } else if encrypt && existing {
        Some(
            "--encrypt is only valid for a new repository; use interactive mode to provide the existing DEK"@,
        )
    } else {
        None
    }
}

/// Rejects flags that exclude each other, before any contact with a remote.
pub fn validate_intent_flags(new: bool, existing: bool, encrypt: bool) -> (r: Result<(), Error>)
    ensures
        match r {
            Ok(()) => flag_conflict(new, existing, encrypt) is None,
            Err(e) => e matches Error::Other(s) && flag_conflict(new, existing, encrypt) == Some(
                s@,
            ),
        },
{
    if new && existing {
        return Err(Error::Other("--new and --existing are mutually exclusive".to_owned()));
    }
    if encrypt && existing {
        return Err(
            Error::Other(
                "--encrypt is only valid for a new repository; use interactive mode to provide the existing DEK".to_owned(),
            ),
        );
    }
    Ok(())
}

/// What flags declare of a remote; `--encrypt` alone declares a new one.
pub open spec fn declared(new: bool, existing: bool, encrypt: bool) -> Option<RemoteIntent> {
    if new {
        Some(RemoteIntent::New)
    } else if existing {
        Some(RemoteIntent::Existing)
    } else if encrypt {
        Some(RemoteIntent::New)
    } else {
        None
    }
}

/// What flags declare of a remote, where nobody can be asked.
pub fn resolve_intent_noninteractive(new: bool, existing: bool, encrypt: bool) -> (r: Result<
    RemoteIntent,
    Error,
>)
    ensures
        match r {
            Ok(i) => declared(new, existing, encrypt) == Some(i),
            Err(e) => declared(new, existing, encrypt) is None && (e matches Error::Other(s) && s@
                == "cannot determine remote intent in non-interactive mode\nPass --new or --existing to specify whether this is a new or existing repository."@),
        },
{
    if new {
        Ok(RemoteIntent::New)
    } else if existing {
        Ok(RemoteIntent::Existing)
    } else if encrypt {
        Ok(RemoteIntent::New)
    } else {
        Err(
            Error::Other(
                "cannot determine remote intent in non-interactive mode\nPass --new or --existing to specify whether this is a new or existing repository.".to_owned(),
            ),
        )
    }
}

/// Why what was found on a remote does not agree with what was declared of it.
pub open spec fn state_conflict(
    index_root: bool,
    objects: bool,
    encrypted: bool,
    intent: RemoteIntent,
) -> Option<Seq<char>> {
    match intent {
        RemoteIntent::New => if index_root || objects {
            Some(
                "remote prefix is not empty\nUse --existing if this is an existing repository, or choose an empty prefix for a new one."@,
            )
        } else {
            None
        },
        RemoteIntent::Existing => if index_root {
            None
        } else if encrypted {
            Some(
                "index root not found on remote\nThe encryption key may be wrong, or the URL/prefix may point to a different repository."@,
            )
        } else {
            Some(
                "INDEX_ROOT not found on remote\nCheck the URL/prefix. If this is a new repository, use --new instead."@,
            )
        },
    }
}

/// Holds what was found on a remote against what was declared of it: a new one has
/// neither an index root nor objects, an existing one has an index root.
pub fn validate_remote_state(
    index_root_present: bool,
    has_objects: bool,
    encrypted: bool,
    intent: RemoteIntent,
) -> (r: Result<(), Error>)
    ensures
        match r {
            Ok(()) => state_conflict(index_root_present, has_objects, encrypted, intent) is None,
            Err(e) => e matches Error::Other(s) && state_conflict(
                index_root_present,
                has_objects,
                encrypted,
                intent,
            ) == Some(s@),
        },
{
    match intent {
        RemoteIntent::New => {
            if index_root_present || has_objects {
                return Err(
                    Error::Other(
                        "remote prefix is not empty\nUse --existing if this is an existing repository, or choose an empty prefix for a new one.".to_owned(),
                    ),
                );
            }
        },
        RemoteIntent::Existing => {
            if !index_root_present {
                if encrypted {
                    return Err(
                        Error::Other(
                            "index root not found on remote\nThe encryption key may be wrong, or the URL/prefix may point to a different repository.".to_owned(),
                        ),
                    );
                }
                return Err(
                    Error::Other(
                        "INDEX_ROOT not found on remote\nCheck the URL/prefix. If this is a new repository, use --new instead.".to_owned(),
                    ),
                );
            }
        },
    }
    Ok(())
}

/// A remote never passes as both new and existing.
pub proof fn law_new_and_existing_exclude(index_root: bool, objects: bool, encrypted: bool)
    ensures
        !(state_conflict(index_root, objects, encrypted, RemoteIntent::New) is None
            && state_conflict(index_root, objects, encrypted, RemoteIntent::Existing) is None),
{
}

// ---------------------------------------------------------------------------
// Questions and answers
// ---------------------------------------------------------------------------

/// The answers given so far; `None` where the input had ended.
pub open spec fn answer_views(a: Seq<Option<String>>) -> Seq<Option<Seq<char>>> {
    a.map_values(|s: Option<String>| text::opt_view(s))
}

/// The text of an answer; nothing where the input had ended.
pub open spec fn answer(a: Seq<Option<Seq<char>>>, i: int) -> Seq<char> {
    match a[i] {
        Some(s) => s,
        None => seq![],
    }
}

fn answer_text(a: &Vec<Option<String>>, i: usize) -> (r: String)
    requires
        i < a@.len(),
    ensures
        r@ == answer(answer_views(a@), i as int),
{
    assert(answer_views(a@)[i as int] == text::opt_view(a@[i as int]));
    match &a[i] {
        Some(s) => s.clone(),
        None => {
            let s = String::new();
            assert(s@ =~= seq![]);
            s
        },
    }
}

/// A text, unless it is empty.
pub open spec fn non_empty(s: Seq<char>) -> Option<Seq<char>> {
    if s.len() == 0 {
        None
    } else {
        Some(s)
    }
}

fn or_none(s: String) -> (r: Option<String>)
    ensures
        text::opt_view(r) == non_empty(s@),
{
    if is_empty(s.as_str()) {
        None
    } else {
        Some(s)
    }
}

/// The region that was given, or the default.
pub open spec fn region_or_default(s: Seq<char>) -> Seq<char> {
    if s.len() == 0 {
        DEFAULT_S3_REGION@
    } else {
        s
    }
}

fn region_of(s: String) -> (r: String)
    ensures
        r@ == region_or_default(s@),
{
    if is_empty(s.as_str()) {
        DEFAULT_S3_REGION.to_owned()
    } else {
        s
    }
}

/// Whether an answer is this letter, in either case.
pub open spec fn is_letter(s: Seq<char>, lower: Seq<char>, upper: Seq<char>) -> bool {
    text::trimmed(s) == lower || text::trimmed(s) == upper
}

fn says(s: &str, lower: &str, upper: &str) -> (r: bool)
    ensures
        r == is_letter(s@, lower@, upper@),
{
    let t = trim(s);
    str_eq(t.as_str(), lower) || str_eq(t.as_str(), upper)
}

/// A text with every ASCII capital replaced by its small letter.
pub open spec fn lowered(s: Seq<char>) -> Seq<char> {
    s.map_values(|c: char| if 'A' <= c <= 'Z' { (c as u32 + 32) as char } else { c })
}

fn lower(s: &str) -> (r: String)
    ensures
        r@ == lowered(s@),
{
    let chars = chars_of(s);
    let mut out = String::new();
    let mut i: usize = 0;
    while i < chars.len()
        invariant
            i <= chars@.len(),
            chars@ == s@,
            out@ =~= lowered(s@).take(i as int),
        decreases chars.len() - i,
    {
        let c: char = chars[i];
        if 'A' <= c && c <= 'Z' {
            let b: u8 = c as u8 + 32;
            out.push(b as char);
        } else {
            out.push(c);
        }
        i = i + 1;
    }
    out
}

/// What comes next when a remote is asked for.
pub enum MenuStep {
    /// This is asked, behind the notice if there is one; the answer to a hidden
    /// question is not echoed.
    Ask { notice: Option<String>, prompt: String, hidden: bool },
    Done(RemoteConfig),
    Failed(Error),
}

/// The value of a step.
#[verifier::ext_equal]
pub enum MenuView {
    Ask { notice: Option<Seq<char>>, prompt: Seq<char>, hidden: bool },
    Done(PlaceView),
    Failed(Seq<char>),
}

impl View for MenuStep {
    type V = MenuView;

    open spec fn view(&self) -> MenuView {
        match self {
            MenuStep::Ask { notice, prompt, hidden } => MenuView::Ask {
                notice: text::opt_view(*notice),
                prompt: prompt@,
                hidden: *hidden,
            },
            MenuStep::Done(c) => MenuView::Done(c.place()),
            MenuStep::Failed(e) => MenuView::Failed(e.text()),
        }
    }
}

impl MenuStep {
    /// A remote that was asked for has no encryption yet.
    pub open spec fn bare(self) -> bool {
        self matches MenuStep::Done(c) ==> c.encryption_of() is None
    }
}

/// A question that is echoed.
pub open spec fn ask_view(prompt: Seq<char>) -> MenuView {
    MenuView::Ask { notice: None, prompt, hidden: false }
}

/// A question that is not echoed.
pub open spec fn ask_hidden_view(prompt: Seq<char>) -> MenuView {
    MenuView::Ask { notice: None, prompt, hidden: true }
}

fn ask(prompt: &str) -> (r: MenuStep)
    ensures
        r@ == ask_view(prompt@),
        r.bare(),
{
    MenuStep::Ask { notice: None, prompt: prompt.to_owned(), hidden: false }
}

fn ask_hidden(prompt: &str) -> (r: MenuStep)
    ensures
        r@ == ask_hidden_view(prompt@),
        r.bare(),
{
    MenuStep::Ask { notice: None, prompt: prompt.to_owned(), hidden: true }
}

fn fail(message: &str) -> (r: MenuStep)
    ensures
        r@ == MenuView::Failed(message@),
        r.bare(),
        r matches MenuStep::Failed(e) && e is Other,
{
    MenuStep::Failed(Error::Other(message.to_owned()))
}

// ---------------------------------------------------------------------------
// The fields of each kind of remote
// ---------------------------------------------------------------------------

/// A local remote, with the answers from the `i`-th on.
pub open spec fn local_step(a: Seq<Option<Seq<char>>>, i: int, home: Option<Seq<char>>) -> MenuView {
    if a.len() <= i {
        ask_view("Path: "@)
    } else if answer(a, i).len() == 0 {
        MenuView::Failed("path is required for a local remote"@)
    } else {
        MenuView::Done(
            PlaceView::Local {
                path: remote::without(
                    remote::tilde_expanded(answer(a, i), home),
                    "local://"@,
                ),
            },
        )
    }
}

fn collect_local_fields(a: &Vec<Option<String>>, i: usize, home: Option<&str>) -> (r: MenuStep)
    requires
        i <= a@.len(),
    ensures
        r@ == local_step(answer_views(a@), i as int, remote::opt_str(home)),
        r.bare(),
        r matches MenuStep::Failed(e) ==> e is Other,
{
    if a.len() <= i {
        return ask("Path: ");
    }
    let path = answer_text(a, i);
    if is_empty(path.as_str()) {
        return fail("path is required for a local remote");
    }
    let expanded = expand_tilde(path.as_str(), home);
    MenuStep::Done(
        RemoteConfig::Local {
            path: drop_prefix(expanded.as_str(), "local://"),
            encryption: None,
        },
    )
}

/// A remote on Amazon S3 or a compatible service. The secret is asked for only where
/// an access key was given, and path-style addressing only where an endpoint was.
pub open spec fn s3_step(a: Seq<Option<Seq<char>>>, i: int) -> MenuView {
    if a.len() <= i {
        ask_view("Bucket: "@)
    } else if answer(a, i).len() == 0 {
        MenuView::Failed("bucket is required for an S3 remote"@)
    } else if a.len() <= i + 1 {
        ask_view("Prefix (optional): "@)
    } else if a.len() <= i + 2 {
        ask_view("Region ["@ + DEFAULT_S3_REGION@ + "]: "@)
    } else if a.len() <= i + 3 {
        ask_view("Access Key ID (blank to use the AWS default credential chain): "@)
    } else {
        let key = answer(a, i + 3);
        let e = if key.len() == 0 {
            i + 4
        } else {
            i + 5
        };
        if key.len() > 0 && a.len() <= i + 4 {
            ask_hidden_view("Secret Access Key: "@)
        } else if a.len() <= e {
            ask_view("S3-compatible endpoint URL (blank for AWS S3): "@)
        } else if answer(a, e).len() > 0 && a.len() <= e + 1 {
            ask_view("Use path-style addressing? [Y/n]: "@)
        } else {
            MenuView::Done(
                PlaceView::S3 {
                    bucket: answer(a, i),
                    region: region_or_default(answer(a, i + 2)),
                    prefix: answer(a, i + 1),
                    access_key_id: non_empty(key),
                    secret_access_key: if key.len() == 0 {
                        None
                    } else {
                        non_empty(answer(a, i + 4))
                    },
                    endpoint: non_empty(answer(a, e)),
                    force_path_style: if answer(a, e).len() == 0 {
                        None
                    } else {
                        Some(!is_letter(answer(a, e + 1), "n"@, "N"@))
                    },
                },
            )
        }
    }
}

fn collect_s3_fields(a: &Vec<Option<String>>, i: usize) -> (r: MenuStep)
    requires
        i <= a@.len(),
    ensures
        r@ == s3_step(answer_views(a@), i as int),
        r.bare(),
        r matches MenuStep::Failed(e) ==> e is Other,
{
    let left: usize = a.len() - i;
    if left == 0 {
        return ask("Bucket: ");
    }
    let bucket = answer_text(a, i);
    if is_empty(bucket.as_str()) {
        return fail("bucket is required for an S3 remote");
    }
    if left == 1 {
        return ask("Prefix (optional): ");
    }
    if left == 2 {
        return ask(concat3("Region [", DEFAULT_S3_REGION, "]: ").as_str());
    }
    if left == 3 {
        return ask("Access Key ID (blank to use the AWS default credential chain): ");
    }
    let key = answer_text(a, i + 3);
    let has_key: bool = !is_empty(key.as_str());
    if has_key && left == 4 {
        return ask_hidden("Secret Access Key: ");
    }
    let skip: usize = if has_key {
        5
    } else {
        4
    };
    if left <= skip {
        return ask("S3-compatible endpoint URL (blank for AWS S3): ");
    }
    let e: usize = i + skip;
    let endpoint = answer_text(a, e);
    let custom: bool = !is_empty(endpoint.as_str());
    if custom && left <= skip + 1 {
        return ask("Use path-style addressing? [Y/n]: ");
    }
    let force_path_style = if custom {
        Some(!says(answer_text(a, e + 1).as_str(), "n", "N"))
    } else {
        None
    };
    let secret_access_key = if has_key {
        or_none(answer_text(a, i + 4))
    } else {
        None
    };
    MenuStep::Done(
        RemoteConfig::S3 {
            bucket,
            region: region_of(answer_text(a, i + 2)),
            prefix: answer_text(a, i + 1),
            access_key_id: or_none(key),
            secret_access_key,
            endpoint: or_none(endpoint),
            force_path_style,
            encryption: None,
        },
    )
}

/// A remote on Google Cloud Storage.
pub open spec fn gcs_step(a: Seq<Option<Seq<char>>>, i: int) -> MenuView {
    if a.len() <= i {
        ask_view("Bucket: "@)
    } else if answer(a, i).len() == 0 {
        MenuView::Failed("bucket is required for a GCS remote"@)
    } else if a.len() <= i + 1 {
        ask_view("Prefix (optional): "@)
    } else if a.len() <= i + 2 {
        ask_view("Service-account JSON key path (blank to use ADC): "@)
    } else if a.len() <= i + 3 {
        ask_view("Project ID (optional): "@)
    } else if a.len() <= i + 4 {
        ask_view("Endpoint (optional): "@)
    } else {
        MenuView::Done(
            PlaceView::Gcs {
                bucket: answer(a, i),
                prefix: answer(a, i + 1),
                project_id: non_empty(answer(a, i + 3)),
                credentials_json_path: non_empty(answer(a, i + 2)),
                credentials_json: None,
                endpoint: non_empty(answer(a, i + 4)),
            },
        )
    }
}

fn collect_gcs_fields(a: &Vec<Option<String>>, i: usize) -> (r: MenuStep)
    requires
        i <= a@.len(),
    ensures
        r@ == gcs_step(answer_views(a@), i as int),
        r.bare(),
        r matches MenuStep::Failed(e) ==> e is Other,
{
    let left: usize = a.len() - i;
    if left == 0 {
        return ask("Bucket: ");
    }
    let bucket = answer_text(a, i);
    if is_empty(bucket.as_str()) {
        return fail("bucket is required for a GCS remote");
    }
    if left == 1 {
        return ask("Prefix (optional): ");
    }
    if left == 2 {
        return ask("Service-account JSON key path (blank to use ADC): ");
    }
    if left == 3 {
        return ask("Project ID (optional): ");
    }
    if left == 4 {
        return ask("Endpoint (optional): ");
    }
    MenuStep::Done(
        RemoteConfig::Gcs {
            bucket,
            prefix: answer_text(a, i + 1),
            project_id: or_none(answer_text(a, i + 3)),
            credentials_json_path: or_none(answer_text(a, i + 2)),
            credentials_json: None,
            endpoint: or_none(answer_text(a, i + 4)),
            encryption: None,
        },
    )
}

/// A remote on Azure Blob Storage.
pub open spec fn azure_step(a: Seq<Option<Seq<char>>>, i: int) -> MenuView {
    if a.len() <= i {
        ask_view("Account: "@)
    } else if answer(a, i).len() == 0 {
        MenuView::Failed("account is required for an Azure remote"@)
    } else if a.len() <= i + 1 {
        ask_view("Container: "@)
    } else if answer(a, i + 1).len() == 0 {
        MenuView::Failed("container is required for an Azure remote"@)
    } else if a.len() <= i + 2 {
        ask_view("Prefix (optional): "@)
    } else if a.len() <= i + 3 {
        ask_view("Tenant ID: "@)
    } else if a.len() <= i + 4 {
        ask_view("Client ID: "@)
    } else if a.len() <= i + 5 {
        ask_hidden_view("Client Secret: "@)
    } else if a.len() <= i + 6 {
        ask_view("Endpoint (optional): "@)
    } else {
        MenuView::Done(
            PlaceView::Azure {
                account: answer(a, i),
                container: answer(a, i + 1),
                prefix: answer(a, i + 2),
                tenant_id: answer(a, i + 3),
                client_id: answer(a, i + 4),
                client_secret: answer(a, i + 5),
                endpoint: non_empty(answer(a, i + 6)),
            },
        )
    }
}

fn collect_azure_fields(a: &Vec<Option<String>>, i: usize) -> (r: MenuStep)
    requires
        i <= a@.len(),
    ensures
        r@ == azure_step(answer_views(a@), i as int),
        r.bare(),
        r matches MenuStep::Failed(e) ==> e is Other,
{
    let left: usize = a.len() - i;
    if left == 0 {
        return ask("Account: ");
    }
    let account = answer_text(a, i);
    if is_empty(account.as_str()) {
        return fail("account is required for an Azure remote");
    }
    if left == 1 {
        return ask("Container: ");
    }
    let container = answer_text(a, i + 1);
    if is_empty(container.as_str()) {
        return fail("container is required for an Azure remote");
    }
    if left == 2 {
        return ask("Prefix (optional): ");
    }
    if left == 3 {
        return ask("Tenant ID: ");
    }
    if left == 4 {
        return ask("Client ID: ");
    }
    if left == 5 {
        return ask_hidden("Client Secret: ");
    }
    if left == 6 {
        return ask("Endpoint (optional): ");
    }
    MenuStep::Done(
        RemoteConfig::Azure {
            account,
            container,
            prefix: answer_text(a, i + 2),
            tenant_id: answer_text(a, i + 3),
            client_id: answer_text(a, i + 4),
            client_secret: answer_text(a, i + 5),
            endpoint: or_none(answer_text(a, i + 6)),
            encryption: None,
        },
    )
}

// ---------------------------------------------------------------------------
// The menu
// ---------------------------------------------------------------------------

/// What is shown above the menu's question.
pub fn menu_lines() -> (r: Vec<String>)
    ensures
        text::views(r@) == seq![
            "Select a remote type:"@,
            "  1) Local directory"@,
            "  2) Amazon S3 (or S3-compatible such as MinIO)"@,
            "  3) Google Cloud Storage"@,
            "  4) Azure Blob Storage"@,
        ],
{
    let mut out: Vec<String> = Vec::new();
    out.push("Select a remote type:".to_owned());
    out.push("  1) Local directory".to_owned());
    out.push("  2) Amazon S3 (or S3-compatible such as MinIO)".to_owned());
    out.push("  3) Google Cloud Storage".to_owned());
    out.push("  4) Azure Blob Storage".to_owned());
    assert(text::views(out@) =~= seq![
        "Select a remote type:"@,
        "  1) Local directory"@,
        "  2) Amazon S3 (or S3-compatible such as MinIO)"@,
        "  3) Google Cloud Storage"@,
        "  4) Azure Blob Storage"@,
    ]);
    out
}

/// The notice about a choice that is none of the menu.
pub open spec fn choice_notice(c: Seq<char>) -> Seq<char> {
    if c == ""@ {
        "Please enter a number from 1 to 4."@
    } else {
        "Invalid choice '"@ + c + "': please enter a number from 1 to 4."@
    }
}

/// What comes next with these answers, from the `i`-th on: choices until one is of
/// the menu, then the fields of that kind of remote.
pub open spec fn menu_step(
    a: Seq<Option<Seq<char>>>,
    i: nat,
    notice: Option<Seq<char>>,
    home: Option<Seq<char>>,
) -> MenuView
    decreases a.len() - i,
{
    if a.len() <= i {
        MenuView::Ask { notice, prompt: "Choice [1-4]: "@, hidden: false }
    } else {
        match a[i as int] {
            None => MenuView::Failed("no remote type selected (end of input)"@),
            Some(s) => {
                let c = text::trimmed(s);
                if c == "1"@ {
                    local_step(a, (i + 1) as int, home)
                } else if c == "2"@ {
                    s3_step(a, (i + 1) as int)
                } else if c == "3"@ {
                    gcs_step(a, (i + 1) as int)
                } else if c == "4"@ {
                    azure_step(a, (i + 1) as int)
                } else {
                    menu_step(a, i + 1, Some(choice_notice(c)), home)
                }
            },
        }
    }
}

/// What comes next when a remote is asked for with the menu, after these answers.
pub fn collect_remote_from_menu(answers: &Vec<Option<String>>, home: Option<&str>) -> (r: MenuStep)
    ensures
        r@ == menu_step(answer_views(answers@), 0, None, remote::opt_str(home)),
        r.bare(),
        r matches MenuStep::Failed(e) ==> e is Other,
{
    let ghost a = answer_views(answers@);
    let ghost h = remote::opt_str(home);
    let mut notice: Option<String> = None;
    let mut i: usize = 0;
    while i < answers.len()
        invariant
            i <= answers@.len(),
            a == answer_views(answers@),
            h == remote::opt_str(home),
            menu_step(a, 0, None, h) == menu_step(a, i as nat, text::opt_view(notice), h),
        decreases answers.len() - i,
    {
        assert(a[i as int] == text::opt_view(answers@[i as int]));
        let c = match &answers[i] {
            None => {
                return fail("no remote type selected (end of input)");
            },
            Some(s) => trim(s.as_str()),
        };
        if str_eq(c.as_str(), "1") {
            return collect_local_fields(answers, i + 1, home);
        }
        if str_eq(c.as_str(), "2") {
            return collect_s3_fields(answers, i + 1);
        }
        if str_eq(c.as_str(), "3") {
            return collect_gcs_fields(answers, i + 1);
        }
        if str_eq(c.as_str(), "4") {
            return collect_azure_fields(answers, i + 1);
        }
        let line = if str_eq(c.as_str(), "") {
            "Please enter a number from 1 to 4.".to_owned()
        } else {
            concat3("Invalid choice '", c.as_str(), "': please enter a number from 1 to 4.")
        };
        notice = Some(line);
        i = i + 1;
    }
    MenuStep::Ask { notice, prompt: "Choice [1-4]: ".to_owned(), hidden: false }
}

/// Choices that are none of the menu change nothing but the notice: the remote that
/// is collected depends on what follows them.
pub proof fn law_invalid_choices_are_skipped(
    a: Seq<Option<Seq<char>>>,
    i: nat,
    notice: Option<Seq<char>>,
    home: Option<Seq<char>>,
)
    requires
        i < a.len(),
        a[i as int] matches Some(s) && text::trimmed(s) != "1"@ && text::trimmed(s) != "2"@
            && text::trimmed(s) != "3"@ && text::trimmed(s) != "4"@,
    ensures
        menu_step(a, i, notice, home) == menu_step(
            a,
            i + 1,
            Some(choice_notice(text::trimmed(a[i as int]->0))),
            home,
        ),
{
}

// ---------------------------------------------------------------------------
// An address
// ---------------------------------------------------------------------------

/// What comes next when a remote is given by its address, after these answers.
pub open spec fn credentials_step(
    url: Seq<char>,
    home: Option<Seq<char>>,
    a: Seq<Option<Seq<char>>>,
) -> MenuView {
    let expanded = remote::tilde_expanded(url, home);
    match remote::kind_of(expanded) {
        remote::AddressKind::Local => MenuView::Done(
            PlaceView::Local { path: remote::without(expanded, "local://"@) },
        ),
        remote::AddressKind::S3 => {
            let rest = remote::without(url, "s3://"@);
            if a.len() == 0 {
                ask_view("Region: "@)
            } else if a.len() == 1 {
                ask_view("Access Key ID (leave blank to use environment): "@)
            } else if answer(a, 1).len() > 0 && a.len() == 2 {
                ask_hidden_view("Secret Access Key: "@)
            } else {
                MenuView::Done(
                    PlaceView::S3 {
                        bucket: remote::before_slash(rest),
                        region: region_or_default(answer(a, 0)),
                        prefix: remote::after_slash(rest),
                        access_key_id: non_empty(answer(a, 1)),
                        secret_access_key: if answer(a, 1).len() == 0 {
                            None
                        } else {
                            non_empty(answer(a, 2))
                        },
                        endpoint: None,
                        force_path_style: None,
                    },
                )
            }
        },
        remote::AddressKind::Unknown => MenuView::Failed("unsupported remote URL: "@ + expanded),
        _ => MenuView::Failed("unsupported remote type: "@ + url),
    }
}

/// What comes next when a remote is given by its address, after these answers.
pub fn prompt_remote_credentials(url: &str, home: Option<&str>, answers: &Vec<Option<String>>) -> (r:
    MenuStep)
    ensures
        r@ == credentials_step(url@, remote::opt_str(home), answer_views(answers@)),
        r.bare(),
        r matches MenuStep::Failed(e) ==> e is Other,
{
    let expanded = expand_tilde(url, home);
    match remote::address_kind(expanded.as_str()) {
        remote::AddressKind::Local => MenuStep::Done(
            RemoteConfig::Local {
                path: drop_prefix(expanded.as_str(), "local://"),
                encryption: None,
            },
        ),
        remote::AddressKind::S3 => {
            let n: usize = answers.len();
            if n == 0 {
                return ask("Region: ");
            }
            if n == 1 {
                return ask("Access Key ID (leave blank to use environment): ");
            }
            let key = answer_text(answers, 1);
            let has_key: bool = !is_empty(key.as_str());
            if has_key && n == 2 {
                return ask_hidden("Secret Access Key: ");
            }
            let secret_access_key = if has_key {
                or_none(answer_text(answers, 2))
            } else {
                None
            };
            let rest = drop_prefix(url, "s3://");
            let (bucket, prefix) = split_slash(rest.as_str());
            MenuStep::Done(
                RemoteConfig::S3 {
                    bucket,
                    region: region_of(answer_text(answers, 0)),
                    prefix,
                    access_key_id: or_none(key),
                    secret_access_key,
                    endpoint: None,
                    force_path_style: None,
                    encryption: None,
                },
            )
        },
        remote::AddressKind::Unknown => fail(
            concat("unsupported remote URL: ", expanded.as_str()).as_str(),
        ),
        _ => fail(concat("unsupported remote type: ", url).as_str()),
    }
}

// ---------------------------------------------------------------------------
// Intent and encryption
// ---------------------------------------------------------------------------

/// Where the key of a remote comes from.
pub enum KeySource {
    /// There is none.
    Off,
    /// A new one is made.
    Generate,
    /// It was given.
    Given(String),
}

/// What comes next when a remote is configured.
pub enum ConfigureStep {
    Ask { prompt: String, hidden: bool },
    Done { intent: RemoteIntent, key: KeySource },
    Failed(Error),
}

/// The value of a step.
#[verifier::ext_equal]
pub enum ConfigureView {
    Ask { prompt: Seq<char>, hidden: bool },
    Off(RemoteIntent),
    Generate(RemoteIntent),
    Given(RemoteIntent, Seq<char>),
    Failed(Seq<char>),
}

impl View for ConfigureStep {
    type V = ConfigureView;

    open spec fn view(&self) -> ConfigureView {
        match self {
            ConfigureStep::Ask { prompt, hidden } => ConfigureView::Ask {
                prompt: prompt@,
                hidden: *hidden,
            },
            ConfigureStep::Done { intent, key } => match key {
                KeySource::Off => ConfigureView::Off(*intent),
                KeySource::Generate => ConfigureView::Generate(*intent),
                KeySource::Given(dek) => ConfigureView::Given(*intent, dek@),
            },
            ConfigureStep::Failed(e) => ConfigureView::Failed(e.text()),
        }
    }
}

/// What the answer to the question for new or existing declares.
pub open spec fn answered_intent(s: Seq<char>) -> Result<RemoteIntent, Seq<char>> {
    let t = lowered(text::trimmed(s));
    if t == "new"@ {
        Ok(RemoteIntent::New)
    } else if t == "existing"@ {
        Ok(RemoteIntent::Existing)
    } else {
        Err("invalid answer '"@ + t + "': expected 'new' or 'existing'"@)
    }
}

/// What comes next once the intent is known, with the answers from the `k`-th on.
pub open spec fn key_step(
    intent: RemoteIntent,
    encrypt: bool,
    a: Seq<Option<Seq<char>>>,
    k: int,
) -> ConfigureView {
    match intent {
        RemoteIntent::New => if encrypt {
            ConfigureView::Generate(intent)
        } else if a.len() <= k {
            ConfigureView::Ask { prompt: "Enable encryption? [Y/n]: "@, hidden: false }
        } else if is_letter(answer(a, k), "n"@, "N"@) {
            ConfigureView::Off(intent)
        } else {
            ConfigureView::Generate(intent)
        },
        RemoteIntent::Existing => if a.len() <= k {
            ConfigureView::Ask { prompt: "Is it encrypted? [y/N]: "@, hidden: false }
        } else if !is_letter(answer(a, k), "y"@, "Y"@) {
            ConfigureView::Off(intent)
        } else if a.len() <= k + 1 {
            ConfigureView::Ask { prompt: "DEK (base64): "@, hidden: true }
        } else {
            ConfigureView::Given(intent, answer(a, k + 1))
        },
    }
}

/// What comes next when a remote is configured: the intent is declared by the flags
/// or asked for, then the encryption is settled.
pub open spec fn configure_step(
    new: bool,
    existing: bool,
    encrypt: bool,
    a: Seq<Option<Seq<char>>>,
) -> ConfigureView {
    match declared(new, existing, encrypt) {
        Some(intent) => key_step(intent, encrypt, a, 0),
        None => if a.len() == 0 {
            ConfigureView::Ask {
                prompt: "Is this a new (empty) remote or an existing one? [new/existing]: "@,
                hidden: false,
            }
        } else {
            match answered_intent(answer(a, 0)) {
                Ok(intent) => key_step(intent, encrypt, a, 1),
                Err(m) => ConfigureView::Failed(m),
            }
        },
    }
}

fn settle_key(intent: RemoteIntent, encrypt: bool, a: &Vec<Option<String>>, k: usize) -> (r:
    ConfigureStep)
    requires
        k <= a@.len(),
    ensures
        r@ == key_step(intent, encrypt, answer_views(a@), k as int),
        !(r is Failed),
{
    match intent {
        RemoteIntent::New => {
            if encrypt {
                return ConfigureStep::Done { intent, key: KeySource::Generate };
            }
            if a.len() <= k {
                return ConfigureStep::Ask {
                    prompt: "Enable encryption? [Y/n]: ".to_owned(),
                    hidden: false,
                };
            }
            if says(answer_text(a, k).as_str(), "n", "N") {
                ConfigureStep::Done { intent, key: KeySource::Off }
            } else {
                ConfigureStep::Done { intent, key: KeySource::Generate }
            }
        },
        RemoteIntent::Existing => {
            if a.len() <= k {
                return ConfigureStep::Ask {
                    prompt: "Is it encrypted? [y/N]: ".to_owned(),
                    hidden: false,
                };
            }
            if !says(answer_text(a, k).as_str(), "y", "Y") {
                return ConfigureStep::Done { intent, key: KeySource::Off };
            }
            if a.len() - k <= 1 {
                return ConfigureStep::Ask { prompt: "DEK (base64): ".to_owned(), hidden: true };
            }
            ConfigureStep::Done { intent, key: KeySource::Given(answer_text(a, k + 1)) }
        },
    }
}

/// What comes next when a remote is configured, after these answers.
pub fn configure_remote_interactively(
    new: bool,
    existing: bool,
    encrypt: bool,
    answers: &Vec<Option<String>>,
) -> (r: ConfigureStep)
    ensures
        r@ == configure_step(new, existing, encrypt, answer_views(answers@)),
        r matches ConfigureStep::Failed(e) ==> e is Other,
{
    if new {
        return settle_key(RemoteIntent::New, encrypt, answers, 0);
    }
    if existing {
        return settle_key(RemoteIntent::Existing, encrypt, answers, 0);
    }
    if encrypt {
        return settle_key(RemoteIntent::New, encrypt, answers, 0);
    }
    if answers.len() == 0 {
        return ConfigureStep::Ask {
            prompt: "Is this a new (empty) remote or an existing one? [new/existing]: ".to_owned(),
            hidden: false,
        };
    }
    let t = lower(trim(answer_text(answers, 0).as_str()).as_str());
    if str_eq(t.as_str(), "new") {
        settle_key(RemoteIntent::New, encrypt, answers, 1)
    } else if str_eq(t.as_str(), "existing") {
        settle_key(RemoteIntent::Existing, encrypt, answers, 1)
    } else {
        ConfigureStep::Failed(
            Error::Other(
                concat3("invalid answer '", t.as_str(), "': expected 'new' or 'existing'"),
            ),
        )
    }
}

/// The encryption of a remote whose key was given.
pub fn given_key(dek: String) -> (r: EncryptionConfig)
    ensures
        r.algorithm@ == "aes-256-gcm"@,
        r.dek == dek,
{
    EncryptionConfig { algorithm: "aes-256-gcm".to_owned(), dek }
}

} // verus!
