//! What a remote is, and how its address is written.

use crate::error::Error;
use crate::text::{self, chars_of, concat, find_char, starts_with, string_of, strip_prefix};
use vstd::prelude::*;
use vstd::string::*;

verus! {

/// The region of a bucket for which none was given.
pub const DEFAULT_S3_REGION: &'static str = "us-east-1";

/// How the objects of a remote are encrypted.
#[derive(Debug)]
pub struct EncryptionConfig {
    pub algorithm: String,
    pub dek: String,
}

/// A place where objects are kept, and what is needed to reach it.
#[derive(Debug)]
pub enum RemoteConfig {
    Local { path: String, encryption: Option<EncryptionConfig> },
    S3 {
        bucket: String,
        region: String,
        prefix: String,
        access_key_id: Option<String>,
        secret_access_key: Option<String>,
        endpoint: Option<String>,
        force_path_style: Option<bool>,
        encryption: Option<EncryptionConfig>,
    },
    Azure {
        account: String,
        container: String,
        prefix: String,
        tenant_id: String,
        client_id: String,
        client_secret: String,
        endpoint: Option<String>,
        encryption: Option<EncryptionConfig>,
    },
    Gcs {
        bucket: String,
        prefix: String,
        project_id: Option<String>,
        credentials_json_path: Option<String>,
        credentials_json: Option<String>,
        endpoint: Option<String>,
        encryption: Option<EncryptionConfig>,
    },
}

/// The value of a remote, apart from its encryption.
#[verifier::ext_equal]
pub enum PlaceView {
    Local { path: Seq<char> },
    S3 {
        bucket: Seq<char>,
        region: Seq<char>,
        prefix: Seq<char>,
        access_key_id: Option<Seq<char>>,
        secret_access_key: Option<Seq<char>>,
        endpoint: Option<Seq<char>>,
        force_path_style: Option<bool>,
    },
    Azure {
        account: Seq<char>,
        container: Seq<char>,
        prefix: Seq<char>,
        tenant_id: Seq<char>,
        client_id: Seq<char>,
        client_secret: Seq<char>,
        endpoint: Option<Seq<char>>,
    },
    Gcs {
        bucket: Seq<char>,
        prefix: Seq<char>,
        project_id: Option<Seq<char>>,
        credentials_json_path: Option<Seq<char>>,
        credentials_json: Option<Seq<char>>,
        endpoint: Option<Seq<char>>,
    },
}

impl RemoteConfig {
    /// The remote apart from its encryption.
    pub open spec fn place(self) -> PlaceView {
        match self {
            RemoteConfig::Local { path, .. } => PlaceView::Local { path: path@ },
            RemoteConfig::S3 {
                bucket,
                region,
                prefix,
                access_key_id,
                secret_access_key,
                endpoint,
                force_path_style,
                ..
            } => PlaceView::S3 {
                bucket: bucket@,
                region: region@,
                prefix: prefix@,
                access_key_id: text::opt_view(access_key_id),
                secret_access_key: text::opt_view(secret_access_key),
                endpoint: text::opt_view(endpoint),
                force_path_style,
            },
            RemoteConfig::Azure {
                account,
                container,
                prefix,
                tenant_id,
                client_id,
                client_secret,
                endpoint,
                ..
            } => PlaceView::Azure {
                account: account@,
                container: container@,
                prefix: prefix@,
                tenant_id: tenant_id@,
                client_id: client_id@,
                client_secret: client_secret@,
                endpoint: text::opt_view(endpoint),
            },
            RemoteConfig::Gcs {
                bucket,
                prefix,
                project_id,
                credentials_json_path,
                credentials_json,
                endpoint,
                ..
            } => PlaceView::Gcs {
                bucket: bucket@,
                prefix: prefix@,
                project_id: text::opt_view(project_id),
                credentials_json_path: text::opt_view(credentials_json_path),
                credentials_json: text::opt_view(credentials_json),
                endpoint: text::opt_view(endpoint),
            },
        }
    }

    /// How the remote is encrypted.
    pub open spec fn encryption_of(self) -> Option<EncryptionConfig> {
        match self {
            RemoteConfig::Local { encryption, .. } => encryption,
            RemoteConfig::S3 { encryption, .. } => encryption,
            RemoteConfig::Azure { encryption, .. } => encryption,
            RemoteConfig::Gcs { encryption, .. } => encryption,
        }
    }

    /// How the remote is encrypted.
    pub fn encryption(&self) -> (r: &Option<EncryptionConfig>)
        ensures
            *r == self.encryption_of(),
    {
        match self {
            RemoteConfig::Local { encryption, .. } => encryption,
            RemoteConfig::S3 { encryption, .. } => encryption,
            RemoteConfig::Azure { encryption, .. } => encryption,
            RemoteConfig::Gcs { encryption, .. } => encryption,
        }
    }
}

/// The remote with another encryption.
pub fn set_remote_encryption(config: RemoteConfig, enc: Option<EncryptionConfig>) -> (r:
    RemoteConfig)
    ensures
        r.place() == config.place(),
        r.encryption_of() == enc,
{
    match config {
        RemoteConfig::Local { path, .. } => RemoteConfig::Local { path, encryption: enc },
        RemoteConfig::S3 {
            bucket,
            region,
            prefix,
            access_key_id,
            secret_access_key,
            endpoint,
            force_path_style,
            ..
        } => RemoteConfig::S3 {
            bucket,
            region,
            prefix,
            access_key_id,
            secret_access_key,
            endpoint,
            force_path_style,
            encryption: enc,
        },
        RemoteConfig::Azure {
            account,
            container,
            prefix,
            tenant_id,
            client_id,
            client_secret,
            endpoint,
            ..
        } => RemoteConfig::Azure {
            account,
            container,
            prefix,
            tenant_id,
            client_id,
            client_secret,
            endpoint,
            encryption: enc,
        },
        RemoteConfig::Gcs {
            bucket,
            prefix,
            project_id,
            credentials_json_path,
            credentials_json,
            endpoint,
            ..
        } => RemoteConfig::Gcs {
            bucket,
            prefix,
            project_id,
            credentials_json_path,
            credentials_json,
            endpoint,
            encryption: enc,
        },
    }
}

/// How a remote is shown.
pub open spec fn display_of(p: PlaceView) -> Seq<char> {
    match p {
        PlaceView::Local { path } => path,
        PlaceView::S3 { bucket, prefix, .. } => "s3://"@ + bucket + "/"@ + prefix,
        PlaceView::Azure { account, container, prefix, .. } => "https://"@ + account
            + ".blob.core.windows.net/"@ + container + "/"@ + prefix,
        PlaceView::Gcs { bucket, prefix, .. } => "gs://"@ + bucket + "/"@ + prefix,
    }
}

/// How a remote is shown.
pub fn remote_display_url(remote: &RemoteConfig) -> (r: String)
    ensures
        r@ == display_of(remote.place()),
{
    match remote {
        RemoteConfig::Local { path, .. } => path.clone(),
        RemoteConfig::S3 { bucket, prefix, .. } => {
            let mut s: String = "s3://".to_owned();
            s.append(bucket.as_str());
            s.append("/");
            s.append(prefix.as_str());
            s
        },
        RemoteConfig::Azure { account, container, prefix, .. } => {
            let mut s: String = "https://".to_owned();
            s.append(account.as_str());
            s.append(".blob.core.windows.net/");
            s.append(container.as_str());
            s.append("/");
            s.append(prefix.as_str());
            s
        },
        RemoteConfig::Gcs { bucket, prefix, .. } => {
            let mut s: String = "gs://".to_owned();
            s.append(bucket.as_str());
            s.append("/");
            s.append(prefix.as_str());
            s
        },
    }
}

// ---------------------------------------------------------------------------
// Addresses
// ---------------------------------------------------------------------------

/// An address with a leading `~` replaced by the home directory. Where that is not
/// known, the `~` stays.
pub open spec fn tilde_expanded(url: Seq<char>, home: Option<Seq<char>>) -> Seq<char> {
    let h = match home {
        Some(h) => h,
        None => "~"@,
    };
    if url == "~"@ {
        h
    } else if text::has_prefix(url, "~/"@) {
        h + "/"@ + url.skip(2)
    } else {
        url
    }
}

/// The text of an optional argument.
pub open spec fn opt_str(s: Option<&str>) -> Option<Seq<char>> {
    match s {
        Some(t) => Some(t@),
        None => None,
    }
}

/// An address with a leading `~` replaced by the home directory.
pub fn expand_tilde(url: &str, home: Option<&str>) -> (r: String)
    ensures
        r@ == tilde_expanded(url@, opt_str(home)),
{
    let h = match home {
        Some(h) => h,
        None => "~",
    };
    if text::str_eq(url, "~") {
        return h.to_owned();
    }
    proof {
        reveal_strlit("~/");
    }
    match strip_prefix(url, "~/") {
        Some(rest) => {
            let mut s: String = h.to_owned();
            s.append("/");
            s.append(rest.as_str());
            s
        },
        None => url.to_owned(),
    }
}

/// What stands in front of the first slash; everything where there is none.
pub open spec fn before_slash(s: Seq<char>) -> Seq<char> {
    s.take(text::find_from(s, '/', 0) as int)
}

/// What stands behind the first slash; nothing where there is none.
pub open spec fn after_slash(s: Seq<char>) -> Seq<char> {
    let i = text::find_from(s, '/', 0);
    if i < s.len() {
        s.skip((i + 1) as int)
    } else {
        seq![]
    }
}

/// Parts a text at its first slash.
pub fn split_slash(s: &str) -> (r: (String, String))
    ensures
        r.0@ == before_slash(s@),
        r.1@ == after_slash(s@),
{
    let chars = chars_of(s);
    let i: usize = find_char(&chars, '/', 0);
    let n: usize = chars.len();
    let head = string_of(&chars, 0, i);
    let tail = if i < n {
        string_of(&chars, i + 1, n)
    } else {
        String::new()
    };
    proof {
        assert(head@ =~= before_slash(s@));
        assert(tail@ =~= after_slash(s@));
    }
    (head, tail)
}

/// What an address says.
pub enum AddressKind {
    Local,
    S3,
    Gcs,
    Azure,
    Unknown,
}

/// What kind of remote an address speaks of.
pub open spec fn kind_of(url: Seq<char>) -> AddressKind {
    if text::has_prefix(url, "/"@) || text::has_prefix(url, "."@) || text::has_prefix(
        url,
        "local://"@,
    ) {
        AddressKind::Local
    } else if text::has_prefix(url, "s3://"@) {
        AddressKind::S3
    } else if text::has_prefix(url, "gs://"@) {
        AddressKind::Gcs
    } else if text::has_prefix(url, "azure://"@) {
        AddressKind::Azure
    } else {
        AddressKind::Unknown
    }
}

/// What kind of remote an address speaks of.
pub fn address_kind(url: &str) -> (r: AddressKind)
    ensures
        r == kind_of(url@),
{
    if starts_with(url, "/") || starts_with(url, ".") || starts_with(url, "local://") {
        AddressKind::Local
    } else if starts_with(url, "s3://") {
        AddressKind::S3
    } else if starts_with(url, "gs://") {
        AddressKind::Gcs
    } else if starts_with(url, "azure://") {
        AddressKind::Azure
    } else {
        AddressKind::Unknown
    }
}

/// A text without a prefix, where it has it.
pub open spec fn without(s: Seq<char>, prefix: Seq<char>) -> Seq<char> {
    if text::has_prefix(s, prefix) {
        s.skip(prefix.len() as int)
    } else {
        s
    }
}

/// A text without a prefix, where it has it.
pub fn drop_prefix(s: &str, prefix: &str) -> (r: String)
    ensures
        r@ == without(s@, prefix@),
{
    match strip_prefix(s, prefix) {
        Some(rest) => rest,
        None => s.to_owned(),
    }
}

/// The remote that an address speaks of, or the complaint about it.
pub open spec fn parsed_url(url: Seq<char>) -> Result<PlaceView, Seq<char>> {
    match kind_of(url) {
        AddressKind::Local => Ok(PlaceView::Local { path: without(url, "local://"@) }),
        AddressKind::S3 => {
            let rest = without(url, "s3://"@);
            Ok(
                PlaceView::S3 {
                    bucket: before_slash(rest),
                    region: DEFAULT_S3_REGION@,
                    prefix: after_slash(rest),
                    access_key_id: None,
                    secret_access_key: None,
                    endpoint: None,
                    force_path_style: None,
                },
            )
        },
        AddressKind::Gcs => {
            let rest = without(url, "gs://"@);
            Ok(
                PlaceView::Gcs {
                    bucket: before_slash(rest),
                    prefix: after_slash(rest),
                    project_id: None,
                    credentials_json_path: None,
                    credentials_json: None,
                    endpoint: None,
                },
            )
        },
        AddressKind::Azure => {
            let rest = without(url, "azure://"@);
            let account = before_slash(rest);
            let container = before_slash(after_slash(rest));
            if account.len() == 0 || container.len() == 0 {
                Err(
                    "azure:// URL must be azure://<account>/<container>[/<prefix>]: "@ + url,
                )
            } else {
                Ok(
                    PlaceView::Azure {
                        account,
                        container,
                        prefix: after_slash(after_slash(rest)),
                        tenant_id: seq![],
                        client_id: seq![],
                        client_secret: seq![],
                        endpoint: None,
                    },
                )
            }
        },
        AddressKind::Unknown => Err("unsupported remote URL: "@ + url),
    }
}

/// Whether a text is empty.
pub fn is_empty(s: &str) -> (r: bool)
    ensures
        r == (s@.len() == 0),
{
    proof {
        reveal_strlit("");
        assert(s@.len() == 0 ==> s@ =~= ""@);
    }
    text::str_eq(s, "")
}

/// The remote that an address speaks of, without encryption.
pub fn build_remote_config_from_url(address: &str, home: Option<&str>) -> (r: Result<
    RemoteConfig,
    Error,
>)
    ensures
        match r {
            Ok(c) => parsed_url(tilde_expanded(address@, opt_str(home))) == Ok::<
                PlaceView,
                Seq<char>,
            >(c.place()) && c.encryption_of() is None,
            Err(e) => e matches Error::Other(s) && parsed_url(
                tilde_expanded(address@, opt_str(home)),
            ) == Err::<PlaceView, Seq<char>>(s@),
        },
{
    let url = expand_tilde(address, home);
    match address_kind(url.as_str()) {
        AddressKind::Local => {
            let path = drop_prefix(url.as_str(), "local://");
            Ok(RemoteConfig::Local { path, encryption: None })
        },
        AddressKind::S3 => {
            let rest = drop_prefix(url.as_str(), "s3://");
            let (bucket, prefix) = split_slash(rest.as_str());
            Ok(
                RemoteConfig::S3 {
                    bucket,
                    region: DEFAULT_S3_REGION.to_owned(),
                    prefix,
                    access_key_id: None,
                    secret_access_key: None,
                    endpoint: None,
                    force_path_style: None,
                    encryption: None,
                },
            )
        },
        AddressKind::Gcs => {
            let rest = drop_prefix(url.as_str(), "gs://");
            let (bucket, prefix) = split_slash(rest.as_str());
            Ok(
                RemoteConfig::Gcs {
                    bucket,
                    prefix,
                    project_id: None,
                    credentials_json_path: None,
                    credentials_json: None,
                    endpoint: None,
                    encryption: None,
                },
            )
        },
        AddressKind::Azure => {
            let rest = drop_prefix(url.as_str(), "azure://");
            let (account, tail) = split_slash(rest.as_str());
            let (container, prefix) = split_slash(tail.as_str());
            if is_empty(account.as_str()) || is_empty(container.as_str()) {
                return Err(
                    Error::Other(
                        concat(
                            "azure:// URL must be azure://<account>/<container>[/<prefix>]: ",
                            url.as_str(),
                        ),
                    ),
                );
            }
            let none = String::new();
            assert(none@ =~= seq![]);
            Ok(
                RemoteConfig::Azure {
                    account,
                    container,
                    prefix,
                    tenant_id: none.clone(),
                    client_id: none.clone(),
                    client_secret: none,
                    endpoint: None,
                    encryption: None,
                },
            )
        },
        AddressKind::Unknown => Err(Error::Other(concat("unsupported remote URL: ", url.as_str()))),
    }
}

/// The name of a kind of remote.
pub open spec fn kind_name(k: AddressKind) -> Seq<char> {
    match k {
        AddressKind::Local => "local"@,
        AddressKind::S3 => "s3"@,
        AddressKind::Gcs => "gcs"@,
        AddressKind::Azure => "azure"@,
        AddressKind::Unknown => seq![],
    }
}

/// The name of the kind of remote that an address speaks of.
pub fn detect_remote_type(address: &str, home: Option<&str>) -> (r: Result<String, Error>)
    ensures
        match r {
            Ok(name) => !(kind_of(tilde_expanded(address@, opt_str(home))) is Unknown) && name@
                == kind_name(kind_of(tilde_expanded(address@, opt_str(home)))),
            Err(e) => kind_of(tilde_expanded(address@, opt_str(home))) is Unknown && (
            e matches Error::Other(s) && s@ == "unsupported remote URL: "@ + tilde_expanded(
                address@,
                opt_str(home),
            )),
        },
{
    let url = expand_tilde(address, home);
    match address_kind(url.as_str()) {
        AddressKind::Local => Ok("local".to_owned()),
        AddressKind::S3 => Ok("s3".to_owned()),
        AddressKind::Gcs => Ok("gcs".to_owned()),
        AddressKind::Azure => Ok("azure".to_owned()),
        AddressKind::Unknown => Err(Error::Other(concat("unsupported remote URL: ", url.as_str()))),
    }
}

/// A bucket's address that has a prefix is shown as it was written.
pub proof fn law_bucket_address_shown(url: Seq<char>)
    requires
        kind_of(url) is S3 || kind_of(url) is Gcs,
        text::find_from(
            without(
                url,
                if kind_of(url) is S3 {
                    "s3://"@
                } else {
                    "gs://"@
                },
            ),
            '/',
            0,
        ) < without(
            url,
            if kind_of(url) is S3 {
                "s3://"@
            } else {
                "gs://"@
            },
        ).len(),
    ensures
        parsed_url(url) is Ok,
        display_of(parsed_url(url)->Ok_0) == url,
{
    let scheme = if kind_of(url) is S3 {
        "s3://"@
    } else {
        "gs://"@
    };
    let rest = without(url, scheme);
    reveal_strlit("/");
    let i = text::find_from(rest, '/', 0);
    text::lemma_find_from(rest, '/', 0);
    assert(url =~= scheme + rest);
    assert(rest =~= before_slash(rest) + "/"@ + after_slash(rest));
    assert(display_of(parsed_url(url)->Ok_0) =~= url);
}

} // verus!
