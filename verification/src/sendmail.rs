//! Sendmail notification endpoints: listing, lookup, creation, update and
//! deletion over the notification configuration.
//!
//! The caller is responsible for permission checks and for locking the
//! configuration; an update may carry the digest the caller read earlier,
//! and is refused when the configuration has changed since.

use vstd::prelude::*;
use crate::bytes::bytes_eq;
use vstd::string::StringSliceAdditionalSpecFns;

verus! {

/// One sendmail endpoint.
#[derive(Debug, Clone)]
pub struct SendmailConfig {
    /// The endpoint's unique name.
    pub name: String,
    /// Recipient addresses.
    pub mailto: Vec<String>,
    /// Sender address.
    pub from_address: Option<String>,
    /// Author shown in the mail.
    pub author: Option<String>,
    /// Associated comment.
    pub comment: Option<String>,
}

/// A partial update of a sendmail endpoint: set fields replace, absent
/// fields keep.
#[derive(Debug)]
pub struct SendmailConfigUpdater {
    pub mailto: Option<Vec<String>>,
    pub from_address: Option<String>,
    pub author: Option<String>,
    pub comment: Option<String>,
}

impl Default for SendmailConfigUpdater {
    /// An updater that changes nothing.
    fn default() -> (r: Self)
        ensures
            r.mailto is None,
            r.from_address is None,
            r.author is None,
            r.comment is None,
    {
        SendmailConfigUpdater { mailto: None, from_address: None, author: None, comment: None }
    }
}

/// A property an update may delete.
#[derive(Debug, Clone, Copy, PartialEq, Eq, Structural)]
pub enum DeleteableSendmailProperty {
    FromAddress,
    Author,
    Comment,
}

/// The notification configuration: the endpoints and the digest of the
/// state the caller read.
#[derive(Debug)]
pub struct Config {
    /// The sendmail endpoints, names unique.
    pub endpoints: Vec<SendmailConfig>,
    /// Digest of the configuration as read.
    pub digest: Vec<u8>,
}

/// Why an operation was refused.
#[derive(Debug, Clone, Copy, PartialEq, Eq, Structural)]
pub enum ApiErrorKind {
    BadRequest,
    NotFound,
    InternalServerError,
}

/// An operation's failure: its kind and the offending name or digest text.
#[derive(Debug)]
pub struct ApiError {
    pub kind: ApiErrorKind,
    pub detail: String,
}

impl ApiError {
    pub fn bad_request(detail: String) -> (r: ApiError)
        ensures
            r.kind == ApiErrorKind::BadRequest,
            r.detail@ == detail@,
    {
        ApiError { kind: ApiErrorKind::BadRequest, detail }
    }

    pub fn not_found(detail: String) -> (r: ApiError)
        ensures
            r.kind == ApiErrorKind::NotFound,
            r.detail@ == detail@,
    {
        ApiError { kind: ApiErrorKind::NotFound, detail }
    }
}

/// Compare two strings by value.
pub fn str_eq(a: &str, b: &str) -> (r: bool)
    ensures
        r == (a@ == b@),
{
    let r = bytes_eq(a.as_bytes(), b.as_bytes());
    proof {
        if a.spec_bytes() == b.spec_bytes() {
            vstd::utf8::encode_utf8_decode_utf8(a@);
            vstd::utf8::encode_utf8_decode_utf8(b@);
        }
    }
    r
}

/// Copy a string.
pub fn clone_string(s: &String) -> (r: String)
    ensures
        r@ == s@,
{
    s.clone()
}

fn clone_opt_string(s: &Option<String>) -> (r: Option<String>)
    ensures
        match s {
            Some(v) => r matches Some(w) && w@ == v@,
            None => r is None,
        },
{
    match s {
        Some(v) => Some(clone_string(v)),
        None => None,
    }
}

pub open spec fn opt_str_eqv(a: Option<String>, b: Option<String>) -> bool {
    match (a, b) {
        (Some(x), Some(y)) => x@ == y@,
        (None, None) => true,
        _ => false,
    }
}

pub open spec fn str_vec_eqv(a: Seq<String>, b: Seq<String>) -> bool {
    a.len() == b.len() && forall|i: int| 0 <= i < a.len() ==> (#[trigger] a[i])@ == b[i]@
}

fn clone_string_vec(v: &Vec<String>) -> (r: Vec<String>)
    ensures
        str_vec_eqv(r@, v@),
{
    let mut out: Vec<String> = Vec::new();
    let mut i: usize = 0;
    while i < v.len()
        invariant
            i <= v@.len(),
            out@.len() == i,
            forall|k: int| 0 <= k < i ==> (#[trigger] out@[k])@ == v@[k]@,
        decreases v@.len() - i,
    {
        out.push(clone_string(&v[i]));
        i += 1;
    }
    out
}

/// Two endpoints with the same field values.
pub open spec fn sendmail_eqv(a: SendmailConfig, b: SendmailConfig) -> bool {
    &&& a.name@ == b.name@
    &&& str_vec_eqv(a.mailto@, b.mailto@)
    &&& opt_str_eqv(a.from_address, b.from_address)
    &&& opt_str_eqv(a.author, b.author)
    &&& opt_str_eqv(a.comment, b.comment)
}

/// Copy an endpoint.
pub fn clone_sendmail(e: &SendmailConfig) -> (r: SendmailConfig)
    ensures
        sendmail_eqv(r, *e),
{
    SendmailConfig {
        name: clone_string(&e.name),
        mailto: clone_string_vec(&e.mailto),
        from_address: clone_opt_string(&e.from_address),
        author: clone_opt_string(&e.author),
        comment: clone_opt_string(&e.comment),
    }
}

/// A configuration with no endpoints; the digest is the fixed digest of the
/// empty configuration, and never all zeroes.
pub fn empty_config() -> (r: Config)
    ensures
        r.endpoints@.len() == 0,
        config_wf(r.endpoints@),
        r.digest@.len() == 32,
        forall|i: int| 0 <= i < 32 ==> r.digest@[i] == 66,
{
    let mut digest: Vec<u8> = Vec::new();
    let mut i: usize = 0;
    while i < 32
        invariant
            i <= 32,
            digest@.len() == i,
            forall|k: int| 0 <= k < i ==> digest@[k] == 66,
        decreases 32 - i,
    {
        digest.push(66);
        i += 1;
    }
    Config { endpoints: Vec::new(), digest }
}

/// Endpoint names are unique.
pub open spec fn config_wf(eps: Seq<SendmailConfig>) -> bool {
    forall|i: int, j: int|
        0 <= i < j < eps.len() ==> (#[trigger] eps[i]).name@ != (#[trigger] eps[j]).name@
}

pub open spec fn endpoint_at(eps: Seq<SendmailConfig>, name: Seq<char>, i: int) -> bool {
    0 <= i < eps.len() && eps[i].name@ == name && forall|k: int|
        0 <= k < i ==> (#[trigger] eps[k]).name@ != name
}

pub open spec fn has_endpoint(eps: Seq<SendmailConfig>, name: Seq<char>) -> bool {
    exists|i: int| 0 <= i < eps.len() && (#[trigger] eps[i]).name@ == name
}

/// The index of the endpoint of this name, first match winning.
fn find_endpoint(config: &Config, name: &str) -> (r: Option<usize>)
    ensures
        match r {
            Some(i) => endpoint_at(config.endpoints@, name@, i as int),
            None => !has_endpoint(config.endpoints@, name@),
        },
{
    let mut i: usize = 0;
    while i < config.endpoints.len()
        invariant
            i <= config.endpoints@.len(),
            forall|k: int| 0 <= k < i ==> (#[trigger] config.endpoints@[k]).name@ != name@,
        decreases config.endpoints@.len() - i,
    {
        if str_eq(config.endpoints[i].name.as_str(), name) {
            return Some(i);
        }
        i += 1;
    }
    None
}

/// List all sendmail endpoints.
pub fn get_endpoints(config: &Config) -> (r: Result<Vec<SendmailConfig>, ApiError>)
    ensures
        r matches Ok(list) && list@.len() == config.endpoints@.len() && forall|i: int|
            0 <= i < list@.len() ==> sendmail_eqv(#[trigger] list@[i], config.endpoints@[i]),
{
    let mut out: Vec<SendmailConfig> = Vec::new();
    let mut i: usize = 0;
    while i < config.endpoints.len()
        invariant
            i <= config.endpoints@.len(),
            out@.len() == i,
            forall|k: int| 0 <= k < i ==> sendmail_eqv(#[trigger] out@[k], config.endpoints@[k]),
        decreases config.endpoints@.len() - i,
    {
        out.push(clone_sendmail(&config.endpoints[i]));
        i += 1;
    }
    Ok(out)
}

/// Get the sendmail endpoint of the given name; `Err` exactly when no such
/// endpoint exists.
pub fn get_endpoint(config: &Config, name: &str) -> (r: Result<SendmailConfig, ApiError>)
    ensures
        match r {
            Ok(e) => exists|i: int|
                endpoint_at(config.endpoints@, name@, i) && sendmail_eqv(
                    e,
                    config.endpoints@[i],
                ),
            Err(err) => !has_endpoint(config.endpoints@, name@) && err.kind
                == ApiErrorKind::NotFound,
        },
{
    match find_endpoint(config, name) {
        Some(i) => Ok(clone_sendmail(&config.endpoints[i])),
        None => Err(ApiError::not_found(name.to_owned())),
    }
}

/// Add a new sendmail endpoint; `Err` exactly when the name is taken.
pub fn add_endpoint(config: &mut Config, endpoint: &SendmailConfig) -> (r: Result<
    (),
    ApiError,
>)
    ensures
        match r {
            Ok(_) => !has_endpoint(old(config).endpoints@, endpoint.name@) && final(config).endpoints@.len() == old(config).endpoints@.len() + 1 && sendmail_eqv(
                final(config).endpoints@.last(),
                *endpoint,
            ) && (forall|i: int|
                0 <= i < old(config).endpoints@.len() ==> final(config).endpoints@[i] == old(config).endpoints@[i]) && final(config).digest == old(config).digest,
            Err(err) => has_endpoint(old(config).endpoints@, endpoint.name@) && *final(config)
                == *old(config) && err.kind == ApiErrorKind::BadRequest,
        },
        config_wf(old(config).endpoints@) ==> config_wf(final(config).endpoints@),
{
    match find_endpoint(config, endpoint.name.as_str()) {
        Some(_) => Err(ApiError::bad_request(endpoint.name.clone())),
        None => {
            config.endpoints.push(clone_sendmail(endpoint));
            proof {
                if config_wf(old(config).endpoints@) {
                    let eps = config.endpoints@;
                    assert forall|i: int, j: int|
                        0 <= i < j < eps.len() implies (#[trigger] eps[i]).name@ != (
                    #[trigger] eps[j]).name@ by {
                        if j == eps.len() - 1 {
                            assert(eps[i] == old(config).endpoints@[i]);
                            assert(eps[j].name@ == endpoint.name@);
                        } else {
                            assert(eps[i] == old(config).endpoints@[i]);
                            assert(eps[j] == old(config).endpoints@[j]);
                        }
                    }
                }
            }
            Ok(())
        },
    }
}

pub open spec fn deletes_have(
    ds: Seq<DeleteableSendmailProperty>,
    p: DeleteableSendmailProperty,
) -> bool {
    exists|i: int| 0 <= i < ds.len() && ds[i] == p
}

fn deletes_contain(ds: &[DeleteableSendmailProperty], p: DeleteableSendmailProperty) -> (r: bool)
    ensures
        r == deletes_have(ds@, p),
{
    let mut i: usize = 0;
    while i < ds.len()
        invariant
            i <= ds@.len(),
            forall|k: int| 0 <= k < i ==> ds@[k] != p,
        decreases ds@.len() - i,
    {
        if ds[i] == p {
            return true;
        }
        i += 1;
    }
    false
}

/// The field values an update leaves behind: a field set by the updater is
/// replaced, else one named for deletion is cleared, else it is kept.
pub open spec fn updated_endpoint(
    old_e: SendmailConfig,
    new_e: SendmailConfig,
    up: &SendmailConfigUpdater,
    del: Seq<DeleteableSendmailProperty>,
) -> bool {
    &&& new_e.name@ == old_e.name@
    &&& match up.mailto {
        Some(ref m) => str_vec_eqv(new_e.mailto@, m@),
        None => str_vec_eqv(new_e.mailto@, old_e.mailto@),
    }
    &&& match up.from_address {
        Some(ref v) => opt_str_eqv(new_e.from_address, Some(*v)),
        None => if deletes_have(del, DeleteableSendmailProperty::FromAddress) {
            new_e.from_address is None
        } else {
            opt_str_eqv(new_e.from_address, old_e.from_address)
        },
    }
    &&& match up.author {
        Some(ref v) => opt_str_eqv(new_e.author, Some(*v)),
        None => if deletes_have(del, DeleteableSendmailProperty::Author) {
            new_e.author is None
        } else {
            opt_str_eqv(new_e.author, old_e.author)
        },
    }
    &&& match up.comment {
        Some(ref v) => opt_str_eqv(new_e.comment, Some(*v)),
        None => if deletes_have(del, DeleteableSendmailProperty::Comment) {
            new_e.comment is None
        } else {
            opt_str_eqv(new_e.comment, old_e.comment)
        },
    }
}

pub open spec fn del_seq(delete: Option<&[DeleteableSendmailProperty]>) -> Seq<
    DeleteableSendmailProperty,
> {
    match delete {
        Some(d) => d@,
        None => Seq::<DeleteableSendmailProperty>::empty(),
    }
}

/// Update an existing sendmail endpoint.  Refused when the caller's digest
/// no longer matches the configuration, or when no endpoint of that name
/// exists; otherwise exactly the named endpoint changes, to the fields the
/// updater and the deletions dictate.
pub fn update_endpoint(
    config: &mut Config,
    name: &str,
    updater: &SendmailConfigUpdater,
    delete: Option<&[DeleteableSendmailProperty]>,
    digest: Option<&[u8]>,
) -> (r: Result<(), ApiError>)
    ensures
        match r {
            Ok(_) => (match digest {
                Some(d) => d@ == old(config).digest@,
                None => true,
            }) && exists|i: int|
                #![auto]
                endpoint_at(old(config).endpoints@, name@, i) && final(config).endpoints@.len()
                    == old(config).endpoints@.len() && updated_endpoint(
                    old(config).endpoints@[i],
                    final(config).endpoints@[i],
                    updater,
                    del_seq(delete),
                ) && (forall|k: int|
                    0 <= k < old(config).endpoints@.len() && k != i ==> final(config).endpoints@[k] == old(config).endpoints@[k]) && final(config).digest == old(config).digest,
            Err(err) => *final(config) == *old(config) && ((err.kind == ApiErrorKind::BadRequest
                && match digest {
                Some(d) => d@ != old(config).digest@,
                None => false,
            }) || (err.kind == ApiErrorKind::NotFound && (match digest {
                Some(d) => d@ == old(config).digest@,
                None => true,
            }) && !has_endpoint(old(config).endpoints@, name@))),
        },
        config_wf(old(config).endpoints@) ==> config_wf(final(config).endpoints@),
{
    match digest {
        Some(d) => {
            if !bytes_eq(d, config.digest.as_slice()) {
                return Err(ApiError::bad_request(name.to_owned()));
            }
        },
        None => {},
    }
    let i = match find_endpoint(config, name) {
        Some(i) => i,
        None => {
            return Err(ApiError::not_found(name.to_owned()));
        },
    };
    let mut e = config.endpoints.remove(i);
    let ghost e_old = e;
    match delete {
        Some(ds) => {
            if deletes_contain(ds, DeleteableSendmailProperty::FromAddress) {
                e.from_address = None;
            }
            if deletes_contain(ds, DeleteableSendmailProperty::Author) {
                e.author = None;
            }
            if deletes_contain(ds, DeleteableSendmailProperty::Comment) {
                e.comment = None;
            }
        },
        None => {},
    }
    match &updater.mailto {
        Some(m) => {
            e.mailto = clone_string_vec(m);
        },
        None => {},
    }
    match &updater.from_address {
        Some(v) => {
            e.from_address = Some(clone_string(v));
        },
        None => {},
    }
    match &updater.author {
        Some(v) => {
            e.author = Some(clone_string(v));
        },
        None => {},
    }
    match &updater.comment {
        Some(v) => {
            e.comment = Some(clone_string(v));
        },
        None => {},
    }
    proof {
        assert(updated_endpoint(e_old, e, updater, del_seq(delete))) by {
            assert(str_vec_eqv(e_old.mailto@, e_old.mailto@));
        }
    }
    config.endpoints.insert(i, e);
    proof {
        assert(endpoint_at(old(config).endpoints@, name@, i as int));
        assert forall|k: int|
            0 <= k < old(config).endpoints@.len() && k != i implies final(config).endpoints@[k]
            == old(config).endpoints@[k] by {}
        if config_wf(old(config).endpoints@) {
            let eps = config.endpoints@;
            assert forall|a: int, b: int|
                0 <= a < b < eps.len() implies (#[trigger] eps[a]).name@ != (
            #[trigger] eps[b]).name@ by {
                assert(eps[a].name@ == old(config).endpoints@[a].name@);
                assert(eps[b].name@ == old(config).endpoints@[b].name@);
            }
        }
    }
    Ok(())
}

/// Delete an existing sendmail endpoint; `Err` exactly when no endpoint of
/// that name exists.
pub fn delete_endpoint(config: &mut Config, name: &str) -> (r: Result<(), ApiError>)
    ensures
        match r {
            Ok(_) => exists|i: int|
                #![auto]
                endpoint_at(old(config).endpoints@, name@, i) && final(config).endpoints@ == old(config).endpoints@.remove(i) && final(config).digest == old(config).digest,
            Err(err) => !has_endpoint(old(config).endpoints@, name@) && *final(config) == *old(config) && err.kind == ApiErrorKind::NotFound,
        },
{
    match find_endpoint(config, name) {
        Some(i) => {
            config.endpoints.remove(i);
            Ok(())
        },
        None => Err(ApiError::not_found(name.to_owned())),
    }
}

} // verus!
