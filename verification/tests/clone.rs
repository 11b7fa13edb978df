use omemfs::commands::clone::populate::{
    blob_fetch, count_steps, expand_or_stub, CloneStep, Kind, Mode,
};
use omemfs::commands::clone::remote::{
    build_remote_config_from_url, detect_remote_type, expand_tilde, remote_display_url,
    set_remote_encryption, EncryptionConfig, RemoteConfig,
};
use omemfs::commands::clone::setup::{
    collect_remote_from_menu, configure_remote_interactively, given_key, menu_lines,
    prompt_remote_credentials, resolve_intent_noninteractive, validate_intent_flags,
    validate_remote_state, ConfigureStep, KeySource, MenuStep, RemoteIntent,
};
use omemfs::commands::clone::{
    classify_input, clone_banner, clone_report, describe_import, describe_root,
    encode_connection_string, imported_backup, origin_of, parse_connection_string, run,
    run_add_backup, undecodable, wants_backup, write_default_filter, AddBackupOptions, CloneFacts,
    CloneOptions, ConfigSource, Entered,
};
use omemfs::error::Error;
use omemfs::object::{Content, Halt, ObjectHash, StubTargetType, Timestamp, TreeEntry, TreeNode};
use omemfs::worktree::{DiskEntry, DiskKind};

/// What is found on a remote.
struct Backend {
    index_root: bool,
    objects: bool,
}

fn validate(b: &Backend, encrypted: bool, intent: RemoteIntent) -> Result<(), Error> {
    validate_remote_state(b.index_root, b.objects, encrypted, intent)
}

#[test]
fn new_on_empty_local_ok() {
    let b = Backend { index_root: false, objects: false };
    assert!(validate(&b, false, RemoteIntent::New).is_ok());
}

#[test]
fn new_on_empty_cloud_ok() {
    let b = Backend { index_root: false, objects: false };
    assert!(validate(&b, false, RemoteIntent::New).is_ok());
}

#[test]
fn new_rejects_existing_index_root_local() {
    let b = Backend { index_root: true, objects: false };
    let err = validate(&b, false, RemoteIntent::New).unwrap_err();
    assert!(err.message().contains("not empty"), "got: {}", err.message());
}

#[test]
fn new_rejects_existing_index_root_cloud() {
    let b = Backend { index_root: true, objects: false };
    let err = validate(&b, false, RemoteIntent::New).unwrap_err();
    assert!(err.message().contains("not empty"), "got: {}", err.message());
}

#[test]
fn new_rejects_stored_objects_with_no_index_root_cloud() {
    let b = Backend { index_root: false, objects: true };
    let err = validate(&b, false, RemoteIntent::New).unwrap_err();
    assert!(err.message().contains("not empty"), "got: {}", err.message());
}

#[test]
fn existing_with_index_root_ok_cloud() {
    let b = Backend { index_root: true, objects: false };
    assert!(validate(&b, false, RemoteIntent::Existing).is_ok());
}

#[test]
fn existing_without_index_root_errors_unencrypted() {
    let b = Backend { index_root: false, objects: false };
    let err = validate(&b, false, RemoteIntent::Existing).unwrap_err();
    assert!(err.message().contains("INDEX_ROOT not found"), "got: {}", err.message());
}

#[test]
fn existing_without_index_root_errors_encrypted() {
    let b = Backend { index_root: false, objects: false };
    let err = validate(&b, true, RemoteIntent::Existing).unwrap_err();
    assert!(err.message().contains("index root not found"), "got: {}", err.message());
}

/// Answers the menu with queued lines; a field that no line is left for is answered
/// with nothing, and a choice with the end of the input.
fn scripted(lines: &[&str]) -> Result<RemoteConfig, Error> {
    let mut answers: Vec<Option<String>> = Vec::new();
    let mut next = 0;
    for _ in 0..50 {
        match collect_remote_from_menu(&answers, None) {
            MenuStep::Done(c) => return Ok(c),
            MenuStep::Failed(e) => return Err(e),
            MenuStep::Ask { prompt, .. } => {
                let line = lines.get(next).map(|s| s.to_string());
                next += 1;
                if prompt == "Choice [1-4]: " {
                    answers.push(line);
                } else {
                    answers.push(Some(line.unwrap_or_default()));
                }
            }
        }
    }
    panic!("the menu does not end");
}

#[test]
fn menu_local_collects_path() {
    match scripted(&["1", "/srv/repo"]).unwrap() {
        RemoteConfig::Local { path, encryption } => {
            assert_eq!(path, "/srv/repo");
            assert!(encryption.is_none());
        }
        other => panic!("expected Local, got {:?}", other),
    }
}

#[test]
fn menu_s3_plain_aws_no_keys() {
    match scripted(&["2", "my-bucket", "repo", "", "", ""]).unwrap() {
        RemoteConfig::S3 {
            bucket,
            region,
            prefix,
            access_key_id,
            secret_access_key,
            endpoint,
            force_path_style,
            ..
        } => {
            assert_eq!(bucket, "my-bucket");
            assert_eq!(prefix, "repo");
            assert_eq!(region, "us-east-1");
            assert!(access_key_id.is_none());
            assert!(secret_access_key.is_none());
            assert!(endpoint.is_none());
            assert!(force_path_style.is_none());
        }
        other => panic!("expected S3, got {:?}", other),
    }
}

#[test]
fn menu_s3_compatible_with_endpoint_and_keys() {
    let cfg = scripted(&[
        "2",
        "omemfs-test",
        "",
        "ap-northeast-1",
        "minioadmin",
        "minioadmin",
        "http://localhost:9000",
        "",
    ])
    .unwrap();
    match cfg {
        RemoteConfig::S3 {
            bucket,
            region,
            prefix,
            access_key_id,
            secret_access_key,
            endpoint,
            force_path_style,
            ..
        } => {
            assert_eq!(bucket, "omemfs-test");
            assert_eq!(prefix, "");
            assert_eq!(region, "ap-northeast-1");
            assert_eq!(access_key_id.as_deref(), Some("minioadmin"));
            assert_eq!(secret_access_key.as_deref(), Some("minioadmin"));
            assert_eq!(endpoint.as_deref(), Some("http://localhost:9000"));
            assert_eq!(force_path_style, Some(true));
        }
        other => panic!("expected S3, got {:?}", other),
    }
}

#[test]
fn menu_s3_path_style_declined() {
    match scripted(&["2", "b", "", "", "", "http://localhost:9000", "n"]).unwrap() {
        RemoteConfig::S3 { force_path_style, .. } => {
            assert_eq!(force_path_style, Some(false));
        }
        other => panic!("expected S3, got {:?}", other),
    }
}

#[test]
fn menu_gcs_collects_fields() {
    match scripted(&["3", "gcs-bucket", "repo", "/keys/sa.json", "my-project", ""]).unwrap() {
        RemoteConfig::Gcs {
            bucket,
            prefix,
            project_id,
            credentials_json_path,
            credentials_json,
            endpoint,
            ..
        } => {
            assert_eq!(bucket, "gcs-bucket");
            assert_eq!(prefix, "repo");
            assert_eq!(project_id.as_deref(), Some("my-project"));
            assert_eq!(credentials_json_path.as_deref(), Some("/keys/sa.json"));
            assert!(credentials_json.is_none());
            assert!(endpoint.is_none());
        }
        other => panic!("expected Gcs, got {:?}", other),
    }
}

#[test]
fn menu_azure_collects_fields() {
    match scripted(&["4", "acct", "cont", "repo", "tenant", "client", "secret", ""]).unwrap() {
        RemoteConfig::Azure {
            account,
            container,
            prefix,
            tenant_id,
            client_id,
            client_secret,
            endpoint,
            ..
        } => {
            assert_eq!(account, "acct");
            assert_eq!(container, "cont");
            assert_eq!(prefix, "repo");
            assert_eq!(tenant_id, "tenant");
            assert_eq!(client_id, "client");
            assert_eq!(client_secret, "secret");
            assert!(endpoint.is_none());
        }
        other => panic!("expected Azure, got {:?}", other),
    }
}

#[test]
fn menu_reprompts_on_invalid_choice() {
    let cfg = scripted(&["9", "", "1", "/srv/repo"]).unwrap();
    assert!(matches!(cfg, RemoteConfig::Local { .. }));
}

#[test]
fn menu_eof_without_choice_errors() {
    let err = scripted(&[]).unwrap_err();
    assert!(err.message().contains("end of input"), "got: {}", err.message());
}

#[test]
fn menu_s3_empty_bucket_errors() {
    let err = scripted(&["2", ""]).unwrap_err();
    assert!(err.message().contains("bucket is required"), "got: {}", err.message());
}

#[test]
fn menu_required_fields() {
    assert_eq!(scripted(&["1", ""]).unwrap_err().message(), "path is required for a local remote");
    assert_eq!(scripted(&["3", ""]).unwrap_err().message(), "bucket is required for a GCS remote");
    assert_eq!(
        scripted(&["4", ""]).unwrap_err().message(),
        "account is required for an Azure remote"
    );
    assert_eq!(
        scripted(&["4", "a", ""]).unwrap_err().message(),
        "container is required for an Azure remote"
    );
}

#[test]
fn menu_tells_what_was_wrong() {
    match collect_remote_from_menu(&vec![Some(" 9 ".to_string())], None) {
        MenuStep::Ask { notice, prompt, hidden } => {
            assert_eq!(
                notice.as_deref(),
                Some("Invalid choice '9': please enter a number from 1 to 4.")
            );
            assert_eq!(prompt, "Choice [1-4]: ");
            assert!(!hidden);
        }
        _ => panic!("nine is no choice"),
    }
    match collect_remote_from_menu(&vec![Some("".to_string())], None) {
        MenuStep::Ask { notice, .. } => {
            assert_eq!(notice.as_deref(), Some("Please enter a number from 1 to 4."))
        }
        _ => panic!("nothing is no choice"),
    }
}

#[test]
fn secrets_are_asked_for_without_echo() {
    let answers: Vec<Option<String>> =
        ["2", "b", "", "", "key"].iter().map(|s| Some(s.to_string())).collect();
    match collect_remote_from_menu(&answers, None) {
        MenuStep::Ask { prompt, hidden, .. } => {
            assert_eq!(prompt, "Secret Access Key: ");
            assert!(hidden);
        }
        _ => panic!("a key needs its secret"),
    }
}

#[test]
fn addresses_are_parsed() {
    assert_eq!(expand_tilde("~", Some("/home/u")), "/home/u");
    assert_eq!(expand_tilde("~/x", Some("/home/u")), "/home/u/x");
    assert_eq!(expand_tilde("~/x", None), "~/x");
    assert_eq!(expand_tilde("a~", Some("/h")), "a~");
    match build_remote_config_from_url("local:///srv/x", None).unwrap() {
        RemoteConfig::Local { path, .. } => assert_eq!(path, "/srv/x"),
        other => panic!("{:?}", other),
    }
    match build_remote_config_from_url("~/r", Some("/h")).unwrap() {
        RemoteConfig::Local { path, .. } => assert_eq!(path, "/h/r"),
        other => panic!("{:?}", other),
    }
    match build_remote_config_from_url("s3://b/p/q", None).unwrap() {
        RemoteConfig::S3 { bucket, prefix, region, .. } => {
            assert_eq!((bucket.as_str(), prefix.as_str()), ("b", "p/q"));
            assert_eq!(region, "us-east-1");
        }
        other => panic!("{:?}", other),
    }
    match build_remote_config_from_url("gs://b", None).unwrap() {
        RemoteConfig::Gcs { bucket, prefix, .. } => {
            assert_eq!((bucket.as_str(), prefix.as_str()), ("b", ""));
        }
        other => panic!("{:?}", other),
    }
    match build_remote_config_from_url("azure://a/c/p/q", None).unwrap() {
        RemoteConfig::Azure { account, container, prefix, tenant_id, .. } => {
            assert_eq!(account, "a");
            assert_eq!(container, "c");
            assert_eq!(prefix, "p/q");
            assert_eq!(tenant_id, "");
        }
        other => panic!("{:?}", other),
    }
    assert_eq!(
        build_remote_config_from_url("azure://a", None).unwrap_err().message(),
        "azure:// URL must be azure://<account>/<container>[/<prefix>]: azure://a"
    );
    assert_eq!(
        build_remote_config_from_url("ftp://x", None).unwrap_err().message(),
        "unsupported remote URL: ftp://x"
    );
    assert_eq!(detect_remote_type("gs://b", None).unwrap(), "gcs");
    assert_eq!(detect_remote_type("./x", None).unwrap(), "local");
    assert_eq!(detect_remote_type("s3://b", None).unwrap(), "s3");
    assert_eq!(detect_remote_type("azure://b", None).unwrap(), "azure");
    assert_eq!(
        detect_remote_type("b", None).unwrap_err().message(),
        "unsupported remote URL: b"
    );
}

#[test]
fn bucket_addresses_are_shown_as_written() {
    for url in ["s3://bucket/some/prefix", "gs://bucket/prefix"] {
        let c = build_remote_config_from_url(url, None).unwrap();
        assert_eq!(remote_display_url(&c), url);
        assert_eq!(clone_banner(&c), format!("Cloning from {url} ..."));
    }
    let azure = build_remote_config_from_url("azure://a/c/p", None).unwrap();
    assert_eq!(remote_display_url(&azure), "https://a.blob.core.windows.net/c/p");
}

#[test]
fn encryption_is_set_on_every_kind() {
    for url in ["/x", "s3://b/p", "gs://b/p", "azure://a/c/p"] {
        let c = build_remote_config_from_url(url, None).unwrap();
        let shown = remote_display_url(&c);
        let key = EncryptionConfig { algorithm: "x".to_string(), dek: "k".to_string() };
        let c = set_remote_encryption(c, Some(key));
        assert_eq!(remote_display_url(&c), shown);
        assert_eq!(c.encryption().as_ref().unwrap().dek, "k");
    }
    let k = given_key("abc".to_string());
    assert_eq!((k.algorithm.as_str(), k.dek.as_str()), ("aes-256-gcm", "abc"));
}

#[test]
fn credentials_follow_an_address() {
    let none: Vec<Option<String>> = Vec::new();
    match prompt_remote_credentials("s3://b/p", None, &none) {
        MenuStep::Ask { prompt, .. } => assert_eq!(prompt, "Region: "),
        _ => panic!("the region is asked for"),
    }
    let given: Vec<Option<String>> =
        ["eu", "id", "secret"].iter().map(|s| Some(s.to_string())).collect();
    match prompt_remote_credentials("s3://b/p", None, &given) {
        MenuStep::Done(RemoteConfig::S3 {
            bucket,
            prefix,
            region,
            access_key_id,
            secret_access_key,
            ..
        }) => {
            assert_eq!((bucket.as_str(), prefix.as_str(), region.as_str()), ("b", "p", "eu"));
            assert_eq!(access_key_id.as_deref(), Some("id"));
            assert_eq!(secret_access_key.as_deref(), Some("secret"));
        }
        _ => panic!("all was answered"),
    }
    assert!(matches!(
        prompt_remote_credentials("/x", None, &none),
        MenuStep::Done(RemoteConfig::Local { path, .. }) if path == "/x"
    ));
    match prompt_remote_credentials("gs://b", None, &none) {
        MenuStep::Failed(e) => assert_eq!(e.message(), "unsupported remote type: gs://b"),
        _ => panic!("there is no prompt for this kind"),
    }
    match prompt_remote_credentials("x", None, &none) {
        MenuStep::Failed(e) => assert_eq!(e.message(), "unsupported remote URL: x"),
        _ => panic!("this is no address"),
    }
}

#[test]
fn intent_flags() {
    assert!(validate_intent_flags(true, false, true).is_ok());
    assert_eq!(
        validate_intent_flags(true, true, false).unwrap_err().message(),
        "--new and --existing are mutually exclusive"
    );
    assert_eq!(
        validate_intent_flags(false, true, true).unwrap_err().message(),
        "--encrypt is only valid for a new repository; use interactive mode to provide the existing DEK"
    );
    assert_eq!(resolve_intent_noninteractive(true, false, false).unwrap(), RemoteIntent::New);
    assert_eq!(resolve_intent_noninteractive(false, true, false).unwrap(), RemoteIntent::Existing);
    assert_eq!(resolve_intent_noninteractive(false, false, true).unwrap(), RemoteIntent::New);
    assert_eq!(
        resolve_intent_noninteractive(false, false, false).unwrap_err().message(),
        "cannot determine remote intent in non-interactive mode\nPass --new or --existing to specify whether this is a new or existing repository."
    );
}

#[test]
fn no_remote_is_new_and_existing() {
    for index_root in [false, true] {
        for objects in [false, true] {
            let b = Backend { index_root, objects };
            assert!(
                validate(&b, false, RemoteIntent::New).is_err()
                    || validate(&b, false, RemoteIntent::Existing).is_err()
            );
        }
    }
}

fn configure(new: bool, existing: bool, encrypt: bool, lines: &[&str]) -> ConfigureStep {
    let answers: Vec<Option<String>> = lines.iter().map(|s| Some(s.to_string())).collect();
    configure_remote_interactively(new, existing, encrypt, &answers)
}

#[test]
fn intent_and_encryption_are_asked_for() {
    assert!(matches!(
        configure(false, false, true, &[]),
        ConfigureStep::Done { intent: RemoteIntent::New, key: KeySource::Generate }
    ));
    assert!(matches!(
        configure(false, false, false, &[" NEW ", "N"]),
        ConfigureStep::Done { intent: RemoteIntent::New, key: KeySource::Off }
    ));
    assert!(matches!(
        configure(true, false, false, &[""]),
        ConfigureStep::Done { intent: RemoteIntent::New, key: KeySource::Generate }
    ));
    assert!(matches!(
        configure(false, true, false, &["no"]),
        ConfigureStep::Done { intent: RemoteIntent::Existing, key: KeySource::Off }
    ));
    match configure(false, false, false, &["existing", "y"]) {
        ConfigureStep::Ask { prompt, hidden } => {
            assert_eq!(prompt, "DEK (base64): ");
            assert!(hidden);
        }
        _ => panic!("the key is asked for"),
    }
    assert!(matches!(
        configure(false, false, false, &["existing", "Y", "key"]),
        ConfigureStep::Done { intent: RemoteIntent::Existing, key: KeySource::Given(k) } if k == "key"
    ));
    match configure(false, false, false, &["Maybe"]) {
        ConfigureStep::Failed(e) => {
            assert_eq!(e.message(), "invalid answer 'maybe': expected 'new' or 'existing'")
        }
        _ => panic!("this is no answer"),
    }
}

fn options(url: Option<&str>, new: bool, existing: bool, encrypt: bool, force: bool) -> CloneOptions {
    CloneOptions {
        url: url.map(|s| s.to_string()),
        encrypt,
        new,
        existing,
        directory: "dir".to_string(),
        stub_threshold: 0,
        force,
    }
}

#[test]
fn a_clone_starts_where_it_may() {
    let fresh = CloneFacts { exists: false, is_empty: false, terminal: true };
    let full = CloneFacts { exists: true, is_empty: false, terminal: false };
    assert_eq!(
        run(&options(None, false, false, false, false), full).unwrap_err().message(),
        "directory 'dir' is not empty; use --force to clone into a non-empty directory"
    );
    assert_eq!(
        run(&options(None, false, false, false, true), full).unwrap_err().message(),
        "interactive setup required; run omemfs clone in a terminal"
    );
    assert_eq!(
        run(&options(None, false, false, false, false), fresh).unwrap(),
        ConfigSource::Prompt
    );
    assert_eq!(
        run(&options(Some("omemfs_repo_x"), false, false, false, false), fresh).unwrap(),
        ConfigSource::Connection
    );
    assert_eq!(
        run(&options(Some("omemfs_repo_x"), false, false, true, false), fresh).unwrap_err().message(),
        "--encrypt cannot be used with a connection string"
    );
    assert_eq!(
        run(&options(Some("/x"), true, false, true, false), fresh).unwrap(),
        ConfigSource::Address { intent: RemoteIntent::New, generate_key: true }
    );
    assert_eq!(
        run(&options(Some("/x"), false, true, false, false), fresh).unwrap(),
        ConfigSource::Address { intent: RemoteIntent::Existing, generate_key: false }
    );
    assert!(run(&options(Some("/x"), false, false, false, false), fresh).is_err());
}

#[test]
fn a_backup_is_added_where_it_may() {
    let opts = |url: Option<&str>, force: bool, encrypt: bool| AddBackupOptions {
        work_dir: "w".to_string(),
        force,
        url: url.map(|s| s.to_string()),
        new: false,
        existing: false,
        encrypt,
    };
    assert_eq!(
        run_add_backup(&opts(None, false, false), true, true).unwrap_err().message(),
        "backup remote already configured; use --force to overwrite"
    );
    assert_eq!(
        run_add_backup(&opts(None, true, false), true, false).unwrap_err().message(),
        "interactive setup required; run omemfs config add-backup in a terminal"
    );
    assert_eq!(
        run_add_backup(&opts(Some("omemfs_repo_x"), false, false), false, false).unwrap(),
        ConfigSource::Connection
    );
    assert_eq!(
        run_add_backup(&opts(Some("omemfs_repo_x"), false, true), false, false)
            .unwrap_err()
            .message(),
        "--encrypt cannot be used with a connection string"
    );
    assert_eq!(
        imported_backup(None).unwrap_err().message(),
        "connection string has no 'backup' remote"
    );
    assert_eq!(origin_of(None).unwrap_err().message(), "origin remote not configured");
}

#[test]
fn connection_strings_round_trip() {
    let s = encode_connection_string("ABC234");
    assert_eq!(s, "omemfs_repo_ABC234");
    assert_eq!(parse_connection_string(&s).unwrap(), "ABC234");
    assert_eq!(classify_input(&s), Entered::Connection);
    assert_eq!(
        parse_connection_string("ABC234").unwrap_err().message(),
        "invalid connection string: missing omemfs_repo_ prefix"
    );
    assert_eq!(undecodable(false, "odd").message(), "invalid connection string: odd");
    assert_eq!(
        undecodable(true, "odd").message(),
        "invalid connection string (JSON parse error): odd"
    );
    assert_eq!(classify_input(""), Entered::Menu);
    assert_eq!(classify_input("/x"), Entered::Address);
    let c = build_remote_config_from_url("/x", None).unwrap();
    assert_eq!(
        describe_import(Some(&c), Some(&c)),
        vec!["Importing config from connection string...", "  origin: /x", "  backup: /x"]
    );
    assert!(describe_import(None, None).is_empty());
}

#[test]
fn what_a_clone_says() {
    assert_eq!(describe_root(None), "Remote is empty. Initialised empty repository.");
    assert_eq!(describe_root(Some(hash(1))), "Remote root: 00000000");
    assert_eq!(clone_report(3, 0, 0, 100, "d"), vec!["3 file(s) expanded.\nCloned into d"]);
    assert_eq!(
        clone_report(3, 2, 1, 100, "d"),
        vec![
            "3 file(s) expanded, 2 file(s) stubbed (>= 100 bytes).\nCloned into d",
            "1 existing path(s) skipped.",
        ]
    );
    assert!(wants_backup(" Y "));
    assert!(!wants_backup("yes"));
    assert!(write_default_filter(false));
    assert!(!write_default_filter(true));
}

fn hash(n: u64) -> ObjectHash {
    ObjectHash { w0: n, w1: n, w2: n, w3: n }
}

fn blob(name: &str, n: u64, size: u64) -> TreeEntry {
    TreeEntry::Blob {
        name: name.to_string(),
        hash: hash(n),
        size,
        mtime: None,
        mode: Some("755".to_string()),
    }
}

fn dir(name: &str, n: u64, size: u64, content: Content) -> TreeEntry {
    TreeEntry::Tree {
        name: name.to_string(),
        size,
        mtime: Some(Timestamp { secs: 5, nanos: 0 }),
        blob_count: 2,
        node: TreeNode { hash: hash(n), content },
    }
}

fn root(es: Vec<TreeEntry>) -> TreeNode {
    TreeNode { hash: hash(1), content: Content::Entries(es) }
}

#[test]
fn large_entries_are_stubbed_without_being_read() {
    let tree = root(vec![
        blob("big", 2, 100),
        blob("small", 3, 99),
        dir("far", 4, 500, Content::Unread),
        dir("near", 5, 50, Content::Entries(vec![blob("x", 6, 10)])),
        TreeEntry::Symlink { name: "l".to_string(), target: "t".to_string(), mtime: None },
    ]);
    let mut steps = Vec::new();
    assert!(expand_or_stub(&tree, "", None, Mode { threshold: 100, force: false }, false, &mut steps).is_ok());
    assert_eq!(count_steps(&steps, Kind::Expanded), 2);
    assert_eq!(count_steps(&steps, Kind::Stubbed), 2);
    assert_eq!(count_steps(&steps, Kind::Skipped), 0);
    assert!(matches!(&steps[0], CloneStep::CreateDir { path } if path.is_empty()));
    match &steps[1] {
        CloneStep::StubFile { path, record } => {
            assert_eq!(path, "big");
            assert_eq!(record.target_type, StubTargetType::Blob);
            assert_eq!((record.hash, record.size), (hash(2), 100));
            assert_eq!(record.mode.as_deref(), Some("755"));
        }
        _ => panic!("a large file is stubbed"),
    }
    match &steps[3] {
        CloneStep::StubDir { path, record } => {
            assert_eq!(path, "far");
            assert_eq!((record.hash, record.blob_count), (hash(4), 2));
        }
        _ => panic!("a large directory is stubbed"),
    }
    assert!(matches!(&steps[5], CloneStep::WriteFile { path, .. } if path == "near/x"));
    assert!(matches!(&steps[6], CloneStep::SetDirTime { path, .. } if path == "near"));
    assert!(matches!(&steps[7], CloneStep::WriteLink { path, target, .. } if path == "l" && target == "t"));
    let mut all = Vec::new();
    assert!(matches!(
        expand_or_stub(&tree, "", None, Mode { threshold: 0, force: false }, false, &mut all),
        Err(Halt::Unread(h)) if h == hash(4)
    ));
}

#[test]
fn nothing_is_stubbed_inside_a_git_repository() {
    let tree = root(vec![
        blob("big", 2, 100),
        dir(".git", 3, 500, Content::Entries(vec![blob("HEAD", 4, 200)])),
    ]);
    let mut steps = Vec::new();
    assert!(expand_or_stub(&tree, "r", None, Mode { threshold: 1, force: false }, false, &mut steps).is_ok());
    assert_eq!(count_steps(&steps, Kind::Stubbed), 0);
    assert_eq!(count_steps(&steps, Kind::Expanded), 2);
}

#[test]
fn what_is_there_is_left_alone() {
    let entry = |name: &str, kind: DiskKind| DiskEntry {
        name: name.to_string(),
        ignored: false,
        reserved: false,
        kind,
    };
    let disk = vec![
        entry("a", DiskKind::File { size: 1 }),
        entry("d", DiskKind::Dir(vec![entry("x", DiskKind::File { size: 1 })])),
        entry("f", DiskKind::File { size: 1 }),
    ];
    let tree = root(vec![
        blob("a", 2, 1),
        blob("b", 3, 1),
        dir("d", 4, 1, Content::Entries(vec![blob("x", 5, 1), blob("y", 6, 1)])),
        dir("f", 7, 1, Content::Entries(vec![blob("z", 8, 1)])),
    ]);
    let mut steps = Vec::new();
    assert!(expand_or_stub(&tree, "", Some(&disk), Mode { threshold: 0, force: true }, false, &mut steps).is_ok());
    let skipped: Vec<&String> = steps
        .iter()
        .filter_map(|s| match s {
            CloneStep::Skip { path } => Some(path),
            _ => None,
        })
        .collect();
    assert_eq!(skipped, vec!["a", "d/x", "f"]);
    assert_eq!(count_steps(&steps, Kind::Expanded), 2);
    let mut plain = Vec::new();
    assert!(expand_or_stub(&tree, "", Some(&disk), Mode { threshold: 0, force: false }, false, &mut plain).is_ok());
    assert_eq!(count_steps(&plain, Kind::Skipped), 0);
    assert_eq!(count_steps(&plain, Kind::Expanded), 5);
}

#[test]
fn files_are_fetched_where_they_are() {
    assert!(matches!(blob_fetch(true, false, hash(1)), Ok(false)));
    assert!(matches!(blob_fetch(false, true, hash(1)), Ok(true)));
    assert_eq!(
        blob_fetch(false, false, hash(1)).unwrap_err().message(),
        "blob not found in cache or remote: 00000000"
    );
}

#[test]
fn the_menu_offers_four_types() {
    let lines = menu_lines();
    assert_eq!(lines.len(), 5);
    assert_eq!(lines[1], "  1) Local directory");
}
