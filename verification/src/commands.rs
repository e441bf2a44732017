//! The rules that the front end's commands apply before and after the work they trigger.

use vstd::prelude::*;
use crate::error::{message_text, AlbumError};
use crate::models::{ConnectionResult, DeviceForm};

verus! {

/// A device form is complete when name, host, user name and backup folder are all given.
pub open spec fn form_error(form: DeviceForm) -> Option<Seq<char>> {
    if form.name@.len() == 0 || form.host@.len() == 0 || form.username@.len() == 0 {
        Some("名称/主机/用户名不能为空"@)
    } else if form.backup_root@.len() == 0 {
        Some("备份目录不能为空"@)
    } else {
        None
    }
}

/// A device form with an empty name, host or user name is refused with the message that
/// says so, whatever else it holds; one with all three but no backup folder is refused for
/// that; a form with all four is accepted.
pub proof fn law_form_needs_every_field(form: DeviceForm)
    ensures
        form.name@.len() == 0 ==> form_error(form) == Some("名称/主机/用户名不能为空"@),
        form.host@.len() == 0 ==> form_error(form) == Some("名称/主机/用户名不能为空"@),
        form.username@.len() == 0 ==> form_error(form) == Some("名称/主机/用户名不能为空"@),
        form.name@.len() > 0 && form.host@.len() > 0 && form.username@.len() > 0 && form.backup_root@.len()
            == 0 ==> form_error(form) == Some("备份目录不能为空"@),
        form.name@.len() > 0 && form.host@.len() > 0 && form.username@.len() > 0 && form.backup_root@.len()
            > 0 ==> form_error(form) is None,
{
}

/// Checks a submitted device form.
pub fn validate_device_form(form: &DeviceForm) -> (r: Result<(), AlbumError>)
    ensures
        form_error(*form) matches Some(m) ==> (r matches Err(AlbumError::Config(e)) && e@ == m),
        form_error(*form) is None ==> r is Ok,
{
    if form.name.as_str().is_empty() || form.host.as_str().is_empty() || form.username.as_str().is_empty() {
        return Err(AlbumError::Config(String::from_str("名称/主机/用户名不能为空")));
    }
    if form.backup_root.as_str().is_empty() {
        return Err(AlbumError::Config(String::from_str("备份目录不能为空")));
    }
    Ok(())
}

/// The banner shown for a server that sent none.
pub fn banner_or_default(banner: Option<String>) -> (r: String)
    ensures
        banner matches Some(b) ==> r@ == b@,
        banner is None ==> r@ == "(no banner)"@,
{
    match banner {
        Some(b) => b,
        None => String::from_str("(no banner)"),
    }
}

/// The answer to a connection test: the banner when it worked, the error's message when not.
pub fn connection_result(outcome: Result<String, AlbumError>) -> (r: ConnectionResult)
    ensures
        outcome matches Ok(b) ==> (r.ok && (r.server_banner matches Some(x) && x@ == b@) && r.error is None),
        outcome matches Err(e) ==> (!r.ok && r.server_banner is None && (r.error matches Some(m) && m@
            == message_text(e))),
{
    match outcome {
        Ok(banner) => ConnectionResult { ok: true, server_banner: Some(banner), error: None },
        Err(e) => ConnectionResult { ok: false, server_banner: None, error: Some(e.message()) },
    }
}

/// How many runs the history page asks for: 50 by default, kept within 1..=500.
pub fn history_limit(limit: Option<i64>) -> (r: i64)
    ensures
        r == match limit {
            Some(l) => if l < 1 {
                1
            } else if l > 500 {
                500
            } else {
                l
            },
            None => 50,
        },
{
    let l = match limit {
        Some(l) => l,
        None => 50,
    };
    if l < 1 {
        1
    } else if l > 500 {
        500
    } else {
        l
    }
}

} // verus!
