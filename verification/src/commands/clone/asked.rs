//! What addresses say, and what is asked for.

use super::remote::{self, PlaceView};
use super::setup::{self, ConfigureView, MenuView, RemoteIntent};
use super::ConfigSource;
use crate::text;
use vstd::prelude::*;

verus! {

// ---------------------------------------------------------------------------
// Addresses
// ---------------------------------------------------------------------------

proof fn lemma_slash(a: Seq<char>, b: Seq<char>)
    requires
        !a.contains('/'),
    ensures
        remote::before_slash(a.push('/') + b) == a,
        remote::after_slash(a.push('/') + b) == b,
        remote::before_slash(a) == a,
        remote::after_slash(a) == Seq::<char>::empty(),
{
    let s = a.push('/') + b;
    text::lemma_find_from(s, '/', 0);
    text::lemma_find_from(a, '/', 0);
    let i = text::find_from(s, '/', 0);
    assert(s[a.len() as int] == '/');
    if i < a.len() {
        assert(s[i as int] == a[i as int]);
        assert(a.contains(a[i as int]));
    }
    let j = text::find_from(a, '/', 0);
    if j < a.len() {
        assert(a.contains(a[j as int]));
    }
    assert(s.take(a.len() as int) =~= a);
    assert(s.skip(a.len() as int + 1) =~= b);
    assert(a.take(a.len() as int) =~= a);
}

proof fn lemma_scheme(scheme: Seq<char>, rest: Seq<char>)
    ensures
        text::has_prefix(scheme + rest, scheme),
        remote::without(scheme + rest, scheme) == rest,
{
    assert((scheme + rest).take(scheme.len() as int) =~= scheme);
    assert((scheme + rest).skip(scheme.len() as int) =~= rest);
}

proof fn lemma_first_char(s: Seq<char>, p: Seq<char>)
    requires
        s.len() > 0,
        p.len() > 0,
        s[0] != p[0],
    ensures
        !text::has_prefix(s, p),
{
    if text::has_prefix(s, p) {
        assert(s.take(p.len() as int)[0] == s[0]);
    }
}

/// The address of a bucket names the bucket and, behind a slash, the prefix in it.
pub proof fn law_bucket_addresses(bucket: Seq<char>, prefix: Seq<char>)
    requires
        !bucket.contains('/'),
    ensures
        remote::parsed_url("s3://"@ + (bucket.push('/') + prefix)) matches Ok(PlaceView::S3 {
            bucket: b,
            prefix: p,
            access_key_id: None,
            secret_access_key: None,
            endpoint: None,
            ..
        }) && b == bucket && p == prefix,
        remote::parsed_url("s3://"@ + bucket) matches Ok(PlaceView::S3 { bucket: b, prefix: p, .. })
            && b == bucket && p.len() == 0,
        remote::parsed_url("gs://"@ + (bucket.push('/') + prefix)) matches Ok(PlaceView::Gcs {
            bucket: b,
            prefix: p,
            ..
        }) && b == bucket && p == prefix,
        remote::parsed_url("gs://"@ + bucket) matches Ok(PlaceView::Gcs { bucket: b, prefix: p, .. })
            && b == bucket && p.len() == 0,
{
    reveal_strlit("s3://");
    reveal_strlit("gs://");
    reveal_strlit("/");
    reveal_strlit(".");
    reveal_strlit("local://");
    reveal_strlit("azure://");
    lemma_slash(bucket, prefix);
    let long = bucket.push('/') + prefix;
    lemma_scheme("s3://"@, long);
    lemma_scheme("s3://"@, bucket);
    lemma_scheme("gs://"@, long);
    lemma_scheme("gs://"@, bucket);
    lemma_kind("s3://"@, long);
    lemma_kind("s3://"@, bucket);
    lemma_kind("gs://"@, long);
    lemma_kind("gs://"@, bucket);
    assert(("gs://"@ + long)[0] == 'g');
    assert(("gs://"@ + bucket)[0] == 'g');
    lemma_first_char("gs://"@ + long, "s3://"@);
    lemma_first_char("gs://"@ + bucket, "s3://"@);
}

proof fn lemma_kind(scheme: Seq<char>, rest: Seq<char>)
    requires
        scheme.len() > 0,
        scheme[0] == 's' || scheme[0] == 'g' || scheme[0] == 'a',
    ensures
        !text::has_prefix(scheme + rest, "/"@),
        !text::has_prefix(scheme + rest, "."@),
        !text::has_prefix(scheme + rest, "local://"@),
{
    reveal_strlit("/");
    reveal_strlit(".");
    reveal_strlit("local://");
    let s = scheme + rest;
    assert(s[0] == scheme[0]);
    lemma_first_char(s, "/"@);
    lemma_first_char(s, "."@);
    lemma_first_char(s, "local://"@);
}

/// The address of a container names the account, the container and the prefix in it; it is
/// refused where the account or the container is missing.
pub proof fn law_container_addresses(account: Seq<char>, container: Seq<char>, prefix: Seq<char>)
    requires
        !account.contains('/'),
        !container.contains('/'),
    ensures
        ({
            let url = "azure://"@ + (account.push('/') + (container.push('/') + prefix));
            if account.len() == 0 || container.len() == 0 {
                remote::parsed_url(url) is Err
            } else {
                remote::parsed_url(url) matches Ok(PlaceView::Azure {
                    account: a,
                    container: c,
                    prefix: p,
                    ..
                }) && a == account && c == container && p == prefix
            }
        }),
{
    reveal_strlit("azure://");
    reveal_strlit("s3://");
    reveal_strlit("gs://");
    let inner = container.push('/') + prefix;
    let rest = account.push('/') + inner;
    lemma_slash(account, inner);
    lemma_slash(container, prefix);
    lemma_scheme("azure://"@, rest);
    lemma_kind("azure://"@, rest);
    let url = "azure://"@ + rest;
    assert(url[0] == 'a');
    lemma_first_char(url, "s3://"@);
    lemma_first_char(url, "gs://"@);
}

/// A path is its own address, and may have a scheme before it.
pub proof fn law_local_addresses(path: Seq<char>)
    ensures
        remote::parsed_url("local://"@ + path) matches Ok(PlaceView::Local { path: p }) && p == path,
        path.len() > 0 && (path[0] == '/' || path[0] == '.') ==> (remote::parsed_url(
            path,
        ) matches Ok(PlaceView::Local { path: p }) && p == path),
{
    reveal_strlit("local://");
    reveal_strlit("/");
    reveal_strlit(".");
    lemma_scheme("local://"@, path);
    if path.len() > 0 && (path[0] == '/' || path[0] == '.') {
        assert(path.take(1) =~= seq![path[0]]);
        assert("/"@ =~= seq!['/']);
        assert("."@ =~= seq!['.']);
        lemma_first_char(path, "local://"@);
    }
}

/// A tilde stands for the home directory, alone or before a slash, and nowhere else.
pub proof fn law_tilde_is_home(rest: Seq<char>, url: Seq<char>, home: Seq<char>)
    ensures
        remote::tilde_expanded("~"@, Some(home)) == home,
        remote::tilde_expanded("~/"@ + rest, Some(home)) == home.push('/') + rest,
        url.len() > 0 && url[0] != '~' ==> remote::tilde_expanded(url, Some(home)) == url,
        url.len() > 1 && url[0] == '~' && url[1] != '/' ==> remote::tilde_expanded(url, Some(home))
            == url,
{
    reveal_strlit("~");
    reveal_strlit("~/");
    reveal_strlit("/");
    lemma_scheme("~/"@, rest);
    assert(("~/"@ + rest).len() >= 2);
    assert(("~/"@ + rest).skip(2) =~= rest);
    assert(home + "/"@ + rest =~= home.push('/') + rest);
    if url.len() > 0 && url[0] != '~' {
        lemma_first_char(url, "~/"@);
        assert("~"@[0] == '~');
    }
    if url.len() > 1 && url[0] == '~' && url[1] != '/' {
        assert("~"@.len() == 1);
        if text::has_prefix(url, "~/"@) {
            assert(url.take(2)[1] == url[1]);
            assert("~/"@[1] == '/');
        }
    }
}

// ---------------------------------------------------------------------------
// Intent
// ---------------------------------------------------------------------------

/// A new repository wants nothing at its place, and an existing one its index root.
pub proof fn law_state_fits_the_intent(index_root: bool, objects: bool, encrypted: bool)
    ensures
        setup::state_conflict(index_root, objects, encrypted, RemoteIntent::New) is None
            <==> !index_root && !objects,
        setup::state_conflict(index_root, objects, encrypted, RemoteIntent::Existing) is None
            <==> index_root,
{
}

/// The flags declare at most one intent; encryption is for what is new.
pub proof fn law_flags_declare_one_intent(new: bool, existing: bool, encrypt: bool)
    ensures
        setup::flag_conflict(new, existing, encrypt) is Some <==> existing && (new || encrypt),
        setup::flag_conflict(new, existing, encrypt) is None ==> setup::declared(
            new,
            existing,
            encrypt,
        ) == if existing {
            Some(RemoteIntent::Existing)
        } else if new || encrypt {
            Some(RemoteIntent::New)
        } else {
            None
        },
{
}

/// A new repository is left without encryption only where that was answered, and an existing
/// one is opened with the key that was typed in.
pub proof fn law_encryption_is_the_default(
    new: bool,
    existing: bool,
    encrypt: bool,
    a: Seq<Option<Seq<char>>>,
)
    requires
        setup::flag_conflict(new, existing, encrypt) is None,
    ensures
        match setup::configure_step(new, existing, encrypt, a) {
            ConfigureView::Off(RemoteIntent::New) => !encrypt && a.len() > 0 && exists|k: int|
                0 <= k < a.len() && k <= 1 && {
                    let t = text::trimmed(#[trigger] setup::answer(a, k));
                    t == "n"@ || t == "N"@
                },
            ConfigureView::Off(RemoteIntent::Existing) => a.len() > 0,
            ConfigureView::Generate(intent) => intent == RemoteIntent::New,
            ConfigureView::Given(intent, key) => intent == RemoteIntent::Existing && exists|k: int|
                1 <= k < a.len() && k <= 2 && key == #[trigger] setup::answer(a, k),
            ConfigureView::Ask { prompt, hidden } => hidden <==> prompt == "DEK (base64): "@,
            ConfigureView::Failed(_) => !new && !existing && !encrypt && a.len() > 0,
        },
        encrypt ==> setup::configure_step(new, existing, encrypt, a) == ConfigureView::Generate(
            RemoteIntent::New,
        ),
{
    let r = setup::configure_step(new, existing, encrypt, a);
    let k: int = if setup::declared(new, existing, encrypt) is Some {
        0
    } else {
        1
    };
    reveal_strlit("DEK (base64): ");
    reveal_strlit("Enable encryption? [Y/n]: ");
    reveal_strlit("Is it encrypted? [y/N]: ");
    reveal_strlit("Is this a new (empty) remote or an existing one? [new/existing]: ");
    assert("DEK (base64): "@[0] == 'D');
    assert("Enable encryption? [Y/n]: "@[0] == 'E');
    assert("Is it encrypted? [y/N]: "@[0] == 'I');
    assert("Is this a new (empty) remote or an existing one? [new/existing]: "@[0] == 'I');
    if r is Off {
        let t = text::trimmed(setup::answer(a, k));
    }
    if r is Given {
        assert(r->Given_1 == setup::answer(a, k + 1));
    }
}

// ---------------------------------------------------------------------------
// The menu
// ---------------------------------------------------------------------------

/// A bucket at S3 is what was answered, and so is each of its fields; the secret is asked for
/// only where there is a key for it, and it alone is hidden.
pub proof fn law_s3_is_what_was_answered(a: Seq<Option<Seq<char>>>, i: int)
    requires
        0 <= i,
    ensures
        match setup::s3_step(a, i) {
            MenuView::Done(PlaceView::S3 {
                bucket,
                region,
                prefix,
                access_key_id,
                secret_access_key,
                endpoint,
                force_path_style,
            }) => {
                let key = setup::answer(a, i + 3);
                let e = if key.len() == 0 {
                    i + 4
                } else {
                    i + 5
                };
                &&& e < a.len()
                &&& bucket == setup::answer(a, i) && bucket.len() > 0
                &&& prefix == setup::answer(a, i + 1)
                &&& setup::answer(a, i + 2).len() > 0 ==> region == setup::answer(a, i + 2)
                &&& access_key_id is Some <==> key.len() > 0
                &&& access_key_id is Some ==> access_key_id == Some(key)
                &&& secret_access_key is Some ==> key.len() > 0 && secret_access_key == Some(
                    setup::answer(a, i + 4),
                )
                &&& endpoint is Some <==> setup::answer(a, e).len() > 0
                &&& endpoint is Some ==> endpoint == Some(setup::answer(a, e))
                &&& force_path_style is Some <==> endpoint is Some
            },
            MenuView::Done(_) => false,
            MenuView::Failed(_) => a.len() > i && setup::answer(a, i).len() == 0,
            MenuView::Ask { prompt, hidden, notice } => {
                &&& notice is None
                &&& hidden ==> a.len() == i + 4 && setup::answer(a, i + 3).len() > 0
                &&& a.len() == i + 4 && setup::answer(a, i).len() > 0 && setup::answer(
                    a,
                    i + 3,
                ).len() > 0 ==> hidden
                &&& a.len() < i + 7
            },
        },
{
}

/// A bucket at Google is what was answered.
pub proof fn law_gcs_is_what_was_answered(a: Seq<Option<Seq<char>>>, i: int)
    requires
        0 <= i,
    ensures
        match setup::gcs_step(a, i) {
            MenuView::Done(PlaceView::Gcs {
                bucket,
                prefix,
                project_id,
                credentials_json_path,
                credentials_json,
                endpoint,
            }) => {
                &&& a.len() > i + 4
                &&& bucket == setup::answer(a, i) && bucket.len() > 0
                &&& prefix == setup::answer(a, i + 1)
                &&& credentials_json_path == given(setup::answer(a, i + 2))
                &&& project_id == given(setup::answer(a, i + 3))
                &&& endpoint == given(setup::answer(a, i + 4))
                &&& credentials_json is None
            },
            MenuView::Done(_) => false,
            MenuView::Failed(_) => a.len() > i && setup::answer(a, i).len() == 0,
            MenuView::Ask { hidden, .. } => !hidden && a.len() <= i + 4,
        },
{
}

/// An answer that is not empty.
pub open spec fn given(s: Seq<char>) -> Option<Seq<char>> {
    if s.len() > 0 {
        Some(s)
    } else {
        None
    }
}

/// A container is what was answered, and only its secret is hidden while it is typed.
pub proof fn law_azure_is_what_was_answered(a: Seq<Option<Seq<char>>>, i: int)
    requires
        0 <= i,
    ensures
        match setup::azure_step(a, i) {
            MenuView::Done(PlaceView::Azure {
                account,
                container,
                prefix,
                tenant_id,
                client_id,
                client_secret,
                endpoint,
            }) => {
                &&& a.len() > i + 6
                &&& account == setup::answer(a, i) && account.len() > 0
                &&& container == setup::answer(a, i + 1) && container.len() > 0
                &&& prefix == setup::answer(a, i + 2) && tenant_id == setup::answer(a, i + 3)
                &&& client_id == setup::answer(a, i + 4) && client_secret == setup::answer(a, i + 5)
                &&& endpoint == given(setup::answer(a, i + 6))
            },
            MenuView::Done(_) => false,
            MenuView::Failed(_) => a.len() > i && setup::answer(a, i).len() == 0 || a.len() > i + 1
                && setup::answer(a, i + 1).len() == 0,
            MenuView::Ask { hidden, .. } => (hidden <==> a.len() == i + 5) && a.len() <= i + 6,
        },
{
}

/// A directory is what was answered, with its tilde expanded; none is an error.
pub proof fn law_local_is_what_was_answered(
    a: Seq<Option<Seq<char>>>,
    i: int,
    home: Option<Seq<char>>,
)
    requires
        0 <= i < a.len(),
    ensures
        setup::answer(a, i).len() == 0 <==> setup::local_step(a, i, home) is Failed,
        setup::answer(a, i).len() > 0 && setup::answer(a, i)[0] == '/' ==> setup::local_step(
            a,
            i,
            home,
        ) == MenuView::Done(PlaceView::Local { path: setup::answer(a, i) }),
{
    let path = setup::answer(a, i);
    if path.len() > 0 && path[0] == '/' {
        reveal_strlit("~");
        reveal_strlit("~/");
        reveal_strlit("local://");
        assert("~"@[0] == '~');
        lemma_first_char(path, "~/"@);
        lemma_first_char(path, "local://"@);
    }
}

/// The number that is chosen tells the kind of the remote.
pub proof fn law_choices_lead_to_their_kind(
    a: Seq<Option<Seq<char>>>,
    i: nat,
    notice: Option<Seq<char>>,
    home: Option<Seq<char>>,
)
    requires
        i < a.len(),
        a[i as int] is Some,
    ensures
        ({
            let c = text::trimmed(a[i as int]->0);
            let r = setup::menu_step(a, i, notice, home);
            &&& c == "1"@ ==> r == setup::local_step(a, i as int + 1, home)
            &&& c == "2"@ ==> r == setup::s3_step(a, i as int + 1)
            &&& c == "3"@ ==> r == setup::gcs_step(a, i as int + 1)
            &&& c == "4"@ ==> r == setup::azure_step(a, i as int + 1)
        }),
{
    reveal_strlit("1");
    reveal_strlit("2");
    reveal_strlit("3");
    reveal_strlit("4");
    assert("1"@[0] == '1' && "2"@[0] == '2' && "3"@[0] == '3' && "4"@[0] == '4');
}

// ---------------------------------------------------------------------------
// Where the configuration comes from
// ---------------------------------------------------------------------------

/// A connection string is one by how it begins, and brings its own encryption. Any other
/// address needs a declared intent, and a key is made for it only where it is new and
/// encryption was asked for. Without an address somebody has to be there to be asked. Flags
/// that exclude each other are refused whatever else is given.
pub proof fn law_sources_are_told_apart(
    url: Option<Seq<char>>,
    new: bool,
    existing: bool,
    encrypt: bool,
    terminal: bool,
    why: Seq<char>,
)
    ensures
        ({
            let r = super::source_of(url, new, existing, encrypt, terminal, why);
            &&& existing && (new || encrypt) ==> r is Err
            &&& r == Ok::<ConfigSource, Seq<char>>(ConfigSource::Connection) <==> url is Some
                && text::has_prefix(url->0, "omemfs_repo_"@) && !encrypt && !(new && existing)
            &&& r == Ok::<ConfigSource, Seq<char>>(ConfigSource::Prompt) <==> url is None && terminal
                && !(existing && (new || encrypt))
            &&& url is None && !terminal && !(existing && (new || encrypt)) ==> r == Err::<
                ConfigSource,
                Seq<char>,
            >(why)
            &&& r matches Ok(ConfigSource::Address { intent, generate_key }) ==> (intent
                == RemoteIntent::Existing <==> existing) && (new || existing || encrypt) && (
            generate_key <==> encrypt)
            &&& url is Some && !text::has_prefix(url->0, "omemfs_repo_"@) && (new || existing
                || encrypt) && !(existing && (new || encrypt)) ==> (r matches Ok(
                ConfigSource::Address { .. },
            ))
        }),
{
}

proof fn lemma_s3_kind(rest: Seq<char>, home: Option<Seq<char>>)
    ensures
        remote::tilde_expanded("s3://"@ + rest, home) == "s3://"@ + rest,
        remote::kind_of("s3://"@ + rest) == remote::AddressKind::S3,
        remote::without("s3://"@ + rest, "s3://"@) == rest,
{
    reveal_strlit("s3://");
    reveal_strlit("~");
    reveal_strlit("~/");
    lemma_scheme("s3://"@, rest);
    lemma_kind("s3://"@, rest);
    let url = "s3://"@ + rest;
    assert(url[0] == 's');
    assert("~"@[0] == '~');
    lemma_first_char(url, "~/"@);
}

/// For the address of a bucket at S3 the region and the key are asked for, and the secret,
/// which is hidden, only where there is a key for it. The remote is then the bucket and the
/// prefix of the address with what was answered.
pub proof fn law_credentials_are_what_was_answered(
    bucket: Seq<char>,
    prefix: Seq<char>,
    home: Option<Seq<char>>,
    region: Seq<char>,
    key: Seq<char>,
    secret: Seq<char>,
)
    requires
        !bucket.contains('/'),
        region.len() > 0,
        key.len() > 0,
        secret.len() > 0,
    ensures
        ({
            let url = "s3://"@ + (bucket.push('/') + prefix);
            &&& setup::credentials_step(url, home, seq![]) matches MenuView::Ask {
                hidden: false,
                ..
            }
            &&& setup::credentials_step(url, home, seq![Some(region)]) matches MenuView::Ask {
                hidden: false,
                ..
            }
            &&& setup::credentials_step(
                url,
                home,
                seq![Some(region), Some(key)],
            ) matches MenuView::Ask { hidden: true, .. }
            &&& setup::credentials_step(url, home, seq![Some(region), Some(key), Some(secret)])
                == MenuView::Done(
                PlaceView::S3 {
                    bucket,
                    region,
                    prefix,
                    access_key_id: Some(key),
                    secret_access_key: Some(secret),
                    endpoint: None,
                    force_path_style: None,
                },
            )
            &&& setup::credentials_step(url, home, seq![Some(region), None]) == MenuView::Done(
                PlaceView::S3 {
                    bucket,
                    region,
                    prefix,
                    access_key_id: None,
                    secret_access_key: None,
                    endpoint: None,
                    force_path_style: None,
                },
            )
        }),
{
    lemma_s3_kind(bucket.push('/') + prefix, home);
    lemma_slash(bucket, prefix);
    let a = seq![Some(region), Some(key), Some(secret)];
    assert(a[0] == Some(region) && a[1] == Some(key) && a[2] == Some(secret));
    let b = seq![Some(region), Some(key)];
    assert(b[0] == Some(region) && b[1] == Some(key));
    let c = seq![Some(region), None::<Seq<char>>];
    assert(c[0] == Some(region) && c[1] == None::<Seq<char>>);
}

/// A directory needs no credentials, and the kinds of which only the menu knows the fields
/// are refused.
pub proof fn law_other_addresses_need_no_credentials(
    path: Seq<char>,
    home: Option<Seq<char>>,
    a: Seq<Option<Seq<char>>>,
)
    ensures
        setup::credentials_step("local://"@ + path, home, a) == MenuView::Done(
            PlaceView::Local { path },
        ),
        setup::credentials_step("gs://"@ + path, home, a) is Failed,
        setup::credentials_step("azure://"@ + path, home, a) is Failed,
{
    reveal_strlit("local://");
    reveal_strlit("gs://");
    reveal_strlit("azure://");
    reveal_strlit("s3://");
    reveal_strlit("~");
    reveal_strlit("~/");
    lemma_scheme("local://"@, path);
    lemma_scheme("gs://"@, path);
    lemma_scheme("azure://"@, path);
    lemma_kind("gs://"@, path);
    lemma_kind("azure://"@, path);
    let l = "local://"@ + path;
    let g = "gs://"@ + path;
    let z = "azure://"@ + path;
    assert(l[0] == 'l' && g[0] == 'g' && z[0] == 'a');
    assert("~"@[0] == '~');
    lemma_first_char(l, "~/"@);
    lemma_first_char(g, "~/"@);
    lemma_first_char(z, "~/"@);
    lemma_first_char(g, "s3://"@);
    lemma_first_char(z, "s3://"@);
    lemma_first_char(z, "gs://"@);
}

/// Whether an answer is this letter, small or capital, white space at its ends aside.
pub open spec fn answers(s: Seq<char>, small: char, capital: char) -> bool {
    text::trimmed(s).len() == 1 && (text::trimmed(s)[0] == small || text::trimmed(s)[0] == capital)
}

/// A new repository is encrypted unless the answer is no, and an existing one is not unless
/// the answer is yes; then its key is asked for without showing it, and taken as it is.
pub proof fn law_answers_decide_on_encryption(s: Seq<char>, key: Seq<char>)
    ensures
        setup::configure_step(true, false, false, seq![Some(s)]) == if answers(s, 'n', 'N') {
            ConfigureView::Off(RemoteIntent::New)
        } else {
            ConfigureView::Generate(RemoteIntent::New)
        },
        !answers(s, 'y', 'Y') ==> setup::configure_step(false, true, false, seq![Some(s)])
            == ConfigureView::Off(RemoteIntent::Existing),
        answers(s, 'y', 'Y') ==> (setup::configure_step(
            false,
            true,
            false,
            seq![Some(s)],
        ) matches ConfigureView::Ask { hidden: true, .. }),
        answers(s, 'y', 'Y') ==> setup::configure_step(
            false,
            true,
            false,
            seq![Some(s), Some(key)],
        ) == ConfigureView::Given(RemoteIntent::Existing, key),
{
    lemma_letter(s, 'n', 'N', "n"@, "N"@);
    lemma_letter(s, 'y', 'Y', "y"@, "Y"@);
    let one = seq![Some(s)];
    assert(one[0] == Some(s));
    let two = seq![Some(s), Some(key)];
    assert(two[0] == Some(s) && two[1] == Some(key));
}

proof fn lemma_letter(s: Seq<char>, small: char, capital: char, a: Seq<char>, b: Seq<char>)
    requires
        a == "n"@ && b == "N"@ && small == 'n' && capital == 'N' || a == "y"@ && b == "Y"@ && small
            == 'y' && capital == 'Y',
    ensures
        setup::is_letter(s, a, b) <==> answers(s, small, capital),
{
    reveal_strlit("n");
    reveal_strlit("N");
    reveal_strlit("y");
    reveal_strlit("Y");
    let t = text::trimmed(s);
    assert(a =~= seq![small]);
    assert(b =~= seq![capital]);
    if t.len() == 1 {
        assert(t =~= seq![t[0]]);
    }
}

/// Whether a text is a word of small letters, whatever the case of its own.
pub open spec fn reads_as(t: Seq<char>, word: Seq<char>) -> bool {
    t.len() == word.len() && forall|i: int|
        0 <= i < t.len() ==> (#[trigger] t[i] == word[i] || 'A' <= t[i] <= 'Z' && t[i] as u32 + 32
            == word[i] as u32)
}

/// The intent is what is answered, in small or capital letters; any other answer is refused.
pub proof fn law_intent_is_what_is_answered(s: Seq<char>)
    ensures
        setup::answered_intent(s) == Ok::<RemoteIntent, Seq<char>>(RemoteIntent::New)
            <==> reads_as(text::trimmed(s), "new"@),
        setup::answered_intent(s) == Ok::<RemoteIntent, Seq<char>>(RemoteIntent::Existing)
            <==> reads_as(text::trimmed(s), "existing"@),
{
    reveal_strlit("new");
    reveal_strlit("existing");
    let t = text::trimmed(s);
    lemma_reads_as(t, "new"@);
    lemma_reads_as(t, "existing"@);
    assert("new"@.len() != "existing"@.len());
}

proof fn lemma_reads_as(t: Seq<char>, word: Seq<char>)
    requires
        forall|i: int| 0 <= i < word.len() ==> 'a' <= #[trigger] word[i] <= 'z',
    ensures
        setup::lowered(t) == word <==> reads_as(t, word),
{
    let l = setup::lowered(t);
    if l == word {
        assert forall|i: int| 0 <= i < t.len() implies (#[trigger] t[i] == word[i] || 'A' <= t[i]
            <= 'Z' && t[i] as u32 + 32 == word[i] as u32) by {
            assert(l[i] == word[i]);
        }
    }
    if reads_as(t, word) {
        assert forall|i: int| 0 <= i < t.len() implies l[i] == word[i] by {
            assert('a' <= word[i] <= 'z');
            assert(t[i] == word[i] || 'A' <= t[i] <= 'Z' && t[i] as u32 + 32 == word[i] as u32);
        }
        assert(l =~= word);
    }
}

/// An empty line leads to the menu, and a connection string is told from an address by how
/// it begins.
pub proof fn law_lines_are_told_apart(rest: Seq<char>, line: Seq<char>)
    ensures
        super::entered(seq![]) is Menu,
        super::entered("omemfs_repo_"@ + rest) is Connection,
        line.len() > 0 && !text::has_prefix(line, "omemfs_repo_"@) ==> super::entered(
            line,
        ) is Address,
{
    reveal_strlit("omemfs_repo_");
    lemma_scheme("omemfs_repo_"@, rest);
    assert(("omemfs_repo_"@ + rest).len() >= 12);
}

} // verus!
