//! Locations of the files kept in the configuration directory, and the
//! appview address.

use vstd::prelude::*;

use vstd::string::StringExecFns;

verus! {

/// File name of the OAuth session store.
pub const AUTH_STORE_FILE: &'static str = "session.json";

/// File name of the cached session information.
pub const SESSION_INFO_FILE: &'static str = "whoami.json";

/// Appview address used when none is configured.
pub const DEFAULT_APPVIEW_URL: &'static str = "https://kipclip.com";

/// A relative file name appended to a directory path, with a `/` between
/// them unless the directory is empty or already ends with one (the Unix
/// behaviour of `Path::join` for a relative name).
pub open spec fn join_path(dir: Seq<char>, file: Seq<char>) -> Seq<char> {
    if dir.len() == 0 || dir.last() == '/' {
        dir + file
    } else {
        dir + seq!['/'] + file
    }
}

fn join_file(dir: &str, file: &str) -> (r: String)
    ensures
        r@ == join_path(dir@, file@),
{
    let mut out = dir.to_owned();
    let n = dir.unicode_len();
    if n > 0 && dir.get_char(n - 1) != '/' {
        out.append("/");
        proof {
            reveal_strlit("/");
        }
    }
    out.append(file);
    proof {
        if n > 0 && dir@.last() != '/' {
            assert(dir@ + "/"@ == dir@ + seq!['/']);
        }
    }
    out
}

/// Path of the OAuth session store inside the configuration directory.
pub fn auth_store_path(config_dir: &str) -> (r: String)
    ensures
        r@ == join_path(config_dir@, AUTH_STORE_FILE@),
{
    join_file(config_dir, AUTH_STORE_FILE)
}

/// Path of the cached session information inside the configuration directory.
pub fn session_info_path(config_dir: &str) -> (r: String)
    ensures
        r@ == join_path(config_dir@, SESSION_INFO_FILE@),
{
    join_file(config_dir, SESSION_INFO_FILE)
}

/// The appview address: the configured one, else the default.
pub fn appview_url(configured: Option<String>) -> (r: String)
    ensures
        r@ == match configured {
            Some(u) => u@,
            None => DEFAULT_APPVIEW_URL@,
        },
{
    match configured {
        Some(u) => u,
        None => DEFAULT_APPVIEW_URL.to_owned(),
    }
}

} // verus!
