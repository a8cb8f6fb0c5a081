//! Filesystem layout for worklog data.
//!
//! Single source of truth for where the database, socket, config, binary
//! cache and release cache live. Everything is rooted at `$WORKLOG_HOME`
//! (for tests and power users) or `~/.worklog` by default. Nothing here
//! touches the filesystem: the caller reads the environment and creates
//! the directories.
use vstd::prelude::*;

use crate::text::{chars_of, concat};

verus! {

/// `Path::join` on a relative or absolute `rest`: an absolute `rest`
/// replaces `base`; otherwise one `/` separates them unless `base` is
/// empty or already ends in one.
pub open spec fn join(base: Seq<char>, rest: Seq<char>) -> Seq<char> {
    if rest.len() > 0 && rest[0] == '/' {
        rest
    } else if base.len() == 0 || base.last() == '/' {
        base + rest
    } else {
        base + seq!['/'] + rest
    }
}

/// `Path::join` on text.
pub fn join_path(base: &str, rest: &str) -> (r: String)
    ensures
        r@ == join(base@, rest@),
{
    let b = chars_of(base);
    let x = chars_of(rest);
    if x.len() > 0 && x[0] == '/' {
        return rest.to_owned();
    }
    if b.len() == 0 || b[b.len() - 1] == '/' {
        return concat(base, rest);
    }
    let with_sep = concat(base, "/");
    proof {
        reveal_strlit("/");
    }
    let r = concat(with_sep.as_str(), rest);
    assert(r@ =~= base@ + seq!['/'] + rest@);
    r
}

/// The resolved layout. Cheap to clone.
#[derive(Debug, Clone, PartialEq, Eq)]
pub struct Paths {
    pub root: String,
    pub db: String,
    pub socket: String,
    pub config: String,
    pub bin_dir: String,
    pub releases: String,
    pub log_dir: String,
}

/// Every path of `p` sits at its fixed name under `p.root`.
pub open spec fn layout_of(p: Paths, root: Seq<char>) -> bool {
    &&& p.root@ == root
    &&& p.db@ == join(root, "worklog.db"@)
    &&& p.socket@ == join(root, "api.sock"@)
    &&& p.config@ == join(root, "config.toml"@)
    &&& p.bin_dir@ == join(root, "bin"@)
    &&& p.releases@ == join(root, "releases"@)
    &&& p.log_dir@ == join(root, "logs"@)
}

/// The root the layout hangs from: a non-empty `$WORKLOG_HOME`, else
/// `.worklog` under the home directory; `None` when neither is known.
pub open spec fn root_for(env_home: Option<Seq<char>>, home: Option<Seq<char>>) -> Option<
    Seq<char>,
> {
    match env_home {
        Some(v) if v.len() > 0 => Some(v),
        _ => match home {
            Some(h) => Some(join(h, ".worklog"@)),
            None => None,
        },
    }
}

pub open spec fn opt_view(o: Option<&str>) -> Option<Seq<char>> {
    match o {
        Some(s) => Some(s@),
        None => None,
    }
}

/// The message of a failed resolution.
pub open spec fn no_home() -> Seq<char> {
    "no home directory available"@
}

/// Calls `dirs::home_dir` and renders the path as text (lossily). What it
/// returns depends on the environment, so the contract states nothing of
/// it.
#[verifier::external_body]
pub(crate) fn home_dir() -> (r: Option<String>) {
    dirs::home_dir().map(|p| p.to_string_lossy().into_owned())
}

impl Paths {
    /// Build the layout under an explicit root directory.
    pub fn from_root(root: &str) -> (p: Paths)
        ensures
            layout_of(p, root@),
    {
        Paths {
            db: join_path(root, "worklog.db"),
            socket: join_path(root, "api.sock"),
            config: join_path(root, "config.toml"),
            bin_dir: join_path(root, "bin"),
            releases: join_path(root, "releases"),
            log_dir: join_path(root, "logs"),
            root: root.to_owned(),
        }
    }

    /// Resolve from the value of `$WORKLOG_HOME` (which the caller reads)
    /// and the given home directory.
    pub fn resolve_in(env_home: Option<&str>, home: Option<&str>) -> (r: Result<Paths, String>)
        ensures
            match root_for(opt_view(env_home), opt_view(home)) {
                Some(root) => r matches Ok(p) && layout_of(p, root),
                None => r matches Err(m) && m@ == no_home(),
            },
    {
        if let Some(v) = env_home {
            if !v.is_empty() {
                return Ok(Paths::from_root(v));
            }
        }
        match home {
            Some(h) => {
                let root = join_path(h, ".worklog");
                Ok(Paths::from_root(root.as_str()))
            },
            None => Err("no home directory available".to_owned()),
        }
    }

    /// Resolve from the value of `$WORKLOG_HOME` (which the caller reads),
    /// falling back to the home directory the system reports.
    pub fn resolve(env_home: Option<&str>) -> (r: Result<Paths, String>)
        ensures
            exists|h: Option<Seq<char>>|
                match #[trigger] root_for(opt_view(env_home), h) {
                    Some(root) => r matches Ok(p) && layout_of(p, root),
                    None => r matches Err(m) && m@ == no_home(),
                },
    {
        if let Some(v) = env_home {
            if !v.is_empty() {
                let r = Paths::from_root(v);
                assert(root_for(opt_view(env_home), None) == Some(v@));
                return Ok(r);
            }
        }
        let home = home_dir();
        let r = match &home {
            Some(h) => Paths::resolve_in(env_home, Some(h.as_str())),
            None => Paths::resolve_in(env_home, None),
        };
        let ghost hv: Option<Seq<char>> = match home {
            Some(h) => Some(h@),
            None => None,
        };
        assert(root_for(opt_view(env_home), hv) == root_for(
            opt_view(env_home),
            hv,
        ));
        r
    }
}

/// Where the daemon listens by default: the layout's socket.
pub fn socket_path(env_home: Option<&str>) -> (r: Result<String, String>)
    ensures
        exists|h: Option<Seq<char>>|
            match #[trigger] root_for(opt_view(env_home), h) {
                Some(root) => r matches Ok(s) && s@ == join(root, "api.sock"@),
                None => r matches Err(m) && m@ == no_home(),
            },
{
    match Paths::resolve(env_home) {
        Ok(p) => Ok(p.socket),
        Err(e) => Err(e),
    }
}

} // verus!
