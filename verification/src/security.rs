//! The security context of a file, as text.
use crate::config::Config;
use crate::error::LsError;
use crate::meta::IoFailure;
use crate::path::copy_bytes;
use vstd::prelude::*;
use vstd::slice::slice_subrange;
use vstd::utf8::{decode_utf8, valid_utf8};

verus! {

/// What `String::from_utf8_lossy` makes of bytes.
pub uninterp spec fn lossy_text(bytes: Seq<u8>) -> Seq<char>;

/// Calls `String::from_utf8`. Not proved: that it succeeds on valid UTF-8
/// alone, and then gives the characters that the bytes encode.
#[verifier::external_body]
pub(crate) fn utf8_text(bytes: &[u8]) -> (r: Option<String>)
    ensures
        match r {
            Some(s) => valid_utf8(bytes@) && s@ == decode_utf8(bytes@),
            None => !valid_utf8(bytes@),
        },
{
    String::from_utf8(bytes.to_vec()).ok()
}

/// Calls `String::from_utf8_lossy`. Not proved: that its result depends on the
/// bytes alone, and is what they encode where they are valid UTF-8. What stands
/// in place of bytes that are not is left unsaid.
#[verifier::external_body]
pub(crate) fn from_utf8_lossy(bytes: &[u8]) -> (r: String)
    ensures
        r@ == lossy_text(bytes@),
        valid_utf8(bytes@) ==> r@ == decode_utf8(bytes@),
{
    String::from_utf8_lossy(bytes).into_owned()
}

/// What the system told of the security context of a file.
#[derive(Debug)]
pub enum ContextReply {
    /// The system has no security contexts.
    Unsupported,
    /// SELinux failed to give the context.
    SelinuxFailed,
    /// SELinux gave the context, if the file has one.
    Selinux(Option<Vec<u8>>),
    /// The SMACK label, if there is one.
    Smack(Option<String>),
}

/// Where the security context of a file is looked up.
#[derive(Clone, Copy, Debug, PartialEq, Eq, Structural)]
pub enum ContextSource {
    /// Nowhere: the system has no security contexts, or the file is not there.
    Nowhere,
    Selinux,
    Smack,
}

/// Where to look up the security context. `unreachable` tells that the link had
/// to be followed and could not be; nothing is looked up then.
pub fn context_source(unreachable: bool, selinux: bool, smack: bool) -> (r: ContextSource)
    ensures
        r == (if unreachable {
            ContextSource::Nowhere
        } else if selinux {
            ContextSource::Selinux
        } else if smack {
            ContextSource::Smack
        } else {
            ContextSource::Nowhere
        }),
{
    if unreachable {
        ContextSource::Nowhere
    } else if selinux {
        ContextSource::Selinux
    } else if smack {
        ContextSource::Smack
    } else {
        ContextSource::Nowhere
    }
}

/// What the user is warned of.
#[derive(Clone, Copy, Debug, PartialEq, Eq, Structural)]
pub enum ContextWarning {
    Nothing,
    /// The context could not be read.
    NotRead,
    /// The context is not text.
    NotText,
}

/// The security context to show.
#[derive(Debug)]
pub struct SecurityContext {
    pub text: String,
    pub warning: ContextWarning,
    /// What is reported: that the link could not be followed.
    pub error: Option<LsError>,
}

/// The bytes of a context without the NUL that may end them.
pub open spec fn without_nul(bytes: Seq<u8>) -> Seq<u8> {
    if bytes.len() > 0 && bytes.last() == 0 {
        bytes.drop_last()
    } else {
        bytes
    }
}

/// The text of a context.
pub open spec fn context_text(bytes: Seq<u8>) -> Seq<char> {
    let b = without_nul(bytes);
    if valid_utf8(b) {
        decode_utf8(b)
    } else {
        lossy_text(b)
    }
}

/// The text of a context, and whether all of it was text.
pub fn selinux_text(bytes: &[u8]) -> (r: (String, ContextWarning))
    ensures
        r.0@ == context_text(bytes@),
        r.1 == (if valid_utf8(without_nul(bytes@)) {
            ContextWarning::Nothing
        } else {
            ContextWarning::NotText
        }),
{
    let n: usize = bytes.len();
    let end: usize = if n > 0 && bytes[n - 1] == 0 {
        n - 1
    } else {
        n
    };
    let b = slice_subrange(bytes, 0, end);
    assert(b@ =~= without_nul(bytes@));
    match utf8_text(b) {
        Some(s) => (s, ContextWarning::Nothing),
        None => (from_utf8_lossy(b), ContextWarning::NotText),
    }
}

/// The security context of the file at `path`; `?` stands where there is none.
/// `unreachable` is why the link could not be followed, where it had to be. That
/// is reported where contexts are what is asked for, as minor trouble.
pub fn get_security_context(
    path: &[u8],
    unreachable: Option<IoFailure>,
    config: &Config,
    reply: ContextReply,
) -> (r: SecurityContext)
    ensures
        match r.error {
            Some(e) => config.context && (unreachable matches Some(failure) && (
            e matches LsError::IOErrorContext(at, f, command_line) && at@ == path@ && f == failure
                && !command_line)),
            None => unreachable is None || !config.context,
        },
        unreachable is Some ==> r.text@ == "?"@ && r.warning == ContextWarning::Nothing,
        unreachable is None ==> match reply {
            ContextReply::Unsupported => r.text@ == "?"@ && r.warning == ContextWarning::Nothing,
            ContextReply::SelinuxFailed => r.text@ == "?"@ && r.warning == ContextWarning::NotRead,
            ContextReply::Selinux(None) => r.text@ == "?"@ && r.warning == ContextWarning::Nothing,
            ContextReply::Selinux(Some(bytes)) => r.text@ == context_text(bytes@) && r.warning == (
            if valid_utf8(without_nul(bytes@)) {
                ContextWarning::Nothing
            } else {
                ContextWarning::NotText
            }),
            ContextReply::Smack(Some(label)) => r.text@ == label@ && r.warning
                == ContextWarning::Nothing,
            ContextReply::Smack(None) => r.text@ == "?"@ && r.warning == ContextWarning::Nothing,
        },
{
    if let Some(failure) = unreachable {
        let error = if config.context {
            Some(LsError::IOErrorContext(copy_bytes(path), failure, false))
        } else {
            None
        };
        return SecurityContext { text: "?".to_owned(), warning: ContextWarning::Nothing, error };
    }
    let (text, warning) = match reply {
        ContextReply::Unsupported => ("?".to_owned(), ContextWarning::Nothing),
        ContextReply::SelinuxFailed => ("?".to_owned(), ContextWarning::NotRead),
        ContextReply::Selinux(None) => ("?".to_owned(), ContextWarning::Nothing),
        ContextReply::Selinux(Some(bytes)) => selinux_text(bytes.as_slice()),
        ContextReply::Smack(Some(label)) => (label, ContextWarning::Nothing),
        ContextReply::Smack(None) => ("?".to_owned(), ContextWarning::Nothing),
    };
    SecurityContext { text, warning, error: None }
}

} // verus!
