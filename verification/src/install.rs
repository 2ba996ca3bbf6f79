//! Where the editor adapter and the command line tool are installed: paths
//! computed from the home directory and from build directories.

use vstd::prelude::*;
use std::path::Path;

verus! {

/// The directory that contains `p`, as `std::path::Path::parent` computes
/// it on the platform the crate is built for.
pub uninterp spec fn parent_of(p: Seq<char>) -> Option<Seq<char>>;

/// `part` joined onto `base`, as `std::path::Path::join` computes it on the
/// platform the crate is built for.
pub uninterp spec fn joined(base: Seq<char>, part: Seq<char>) -> Seq<char>;

/// `std::path::Path::parent` on a path given as text. Trusted: the result
/// is `parent_of` of the argument; nothing more is stated of it.
#[verifier::external_body]
fn path_parent(p: &str) -> (r: Option<String>)
    ensures
        match r {
            Some(q) => parent_of(p@) == Some(q@),
            None => parent_of(p@) is None,
        },
{
    match Path::new(p).parent() {
        Some(q) => Some(q.to_string_lossy().into_owned()),
        None => None,
    }
}

/// `std::path::Path::join` on paths given as text. Trusted: the result is
/// `joined` of the arguments; nothing more is stated of it.
#[verifier::external_body]
fn path_join(base: &str, part: &str) -> (r: String)
    ensures
        r@ == joined(base@, part@),
{
    Path::new(base).join(part).to_string_lossy().into_owned()
}

/// The home directory: the user profile when it is set and not empty, else
/// the home variable when it is set and not empty.
pub open spec fn home_choice(userprofile: Option<Seq<char>>, home: Option<Seq<char>>) -> Option<Seq<char>> {
    match userprofile {
        Some(p) if p.len() > 0 => Some(p),
        _ => match home {
            Some(h) if h.len() > 0 => Some(h),
            _ => None,
        },
    }
}

fn home_dir(userprofile: Option<&str>, home: Option<&str>) -> (r: Option<String>)
    ensures
        match r {
            Some(h) => home_choice(opt_view(userprofile), opt_view(home)) == Some(h@),
            None => home_choice(opt_view(userprofile), opt_view(home)) is None,
        },
{
    if let Some(p) = userprofile {
        if p.unicode_len() > 0 {
            return Some(p.to_owned());
        }
    }
    if let Some(h) = home {
        if h.unicode_len() > 0 {
            return Some(h.to_owned());
        }
    }
    None
}

/// The text of an optional string.
pub open spec fn opt_view(s: Option<&str>) -> Option<Seq<char>> {
    match s {
        Some(t) => Some(t@),
        None => None,
    }
}

/// `.evs-delta` under the home directory chosen from the values of the
/// user profile and home variables, if either names one.
pub fn evs_delta_home(userprofile: Option<&str>, home: Option<&str>) -> (r: Option<String>)
    ensures
        match home_choice(opt_view(userprofile), opt_view(home)) {
            Some(h) => r matches Some(d) && d@ == joined(h, ".evs-delta"@),
            None => r is None,
        },
{
    match home_dir(userprofile, home) {
        Some(h) => Some(path_join(h.as_str(), ".evs-delta")),
        None => None,
    }
}

/// The repository root two levels above the command line crate's manifest
/// directory, or that directory itself when it has no grandparent.
pub open spec fn repo_root_of(manifest_dir: Seq<char>) -> Seq<char> {
    match parent_of(manifest_dir) {
        Some(p) => match parent_of(p) {
            Some(q) => q,
            None => manifest_dir,
        },
        None => manifest_dir,
    }
}

pub fn repo_root_from_cli_manifest(manifest_dir: &str) -> (r: String)
    ensures
        r@ == repo_root_of(manifest_dir@),
{
    match path_parent(manifest_dir) {
        Some(p) => match path_parent(p.as_str()) {
            Some(q) => q,
            None => manifest_dir.to_owned(),
        },
        None => manifest_dir.to_owned(),
    }
}

/// The `n`-th ancestor of `p` (`p` itself for none), if it exists.
pub open spec fn ancestor(p: Seq<char>, n: nat) -> Option<Seq<char>>
    decreases n,
{
    if n == 0 {
        Some(p)
    } else {
        match ancestor(p, (n - 1) as nat) {
            Some(a) => parent_of(a),
            None => None,
        }
    }
}

/// The file name of the command line tool: with the `.exe` extension on
/// Windows.
pub open spec fn cli_name_of(windows: bool) -> Seq<char> {
    if windows { "delta-cli.exe"@ } else { "delta-cli"@ }
}

/// The file name of the command line tool, on Windows when `windows` is set
/// (the platform the program was built for; the caller knows it).
pub fn cli_binary_name(windows: bool) -> (r: &'static str)
    ensures
        r@ == cli_name_of(windows),
{
    if windows { "delta-cli.exe" } else { "delta-cli" }
}

/// The binary in the profile directory three levels above a build script's
/// output directory (`target/<profile>/build/<pkg>/out`), or in the output
/// directory itself when it is not that deep.
pub open spec fn profile_bin_of(out_dir: Seq<char>, windows: bool) -> Seq<char> {
    let dir = match ancestor(out_dir, 3) {
        Some(a) => a,
        None => out_dir,
    };
    joined(dir, cli_name_of(windows))
}

pub fn profile_bin_path(out_dir: &str, windows: bool) -> (r: String)
    ensures
        r@ == profile_bin_of(out_dir@, windows),
{
    let mut dir = out_dir.to_owned();
    let mut k: usize = 0;
    let mut found = true;
    while k < 3
        invariant
            k <= 3,
            found ==> ancestor(out_dir@, k as nat) == Some(dir@),
            !found ==> ancestor(out_dir@, 3) is None,
        decreases 3 - k,
    {
        if found {
            match path_parent(dir.as_str()) {
                Some(p) => {
                    proof {
                        assert(ancestor(out_dir@, (k + 1) as nat) == parent_of(dir@));
                    }
                    dir = p;
                },
                None => {
                    proof {
                        assert(ancestor(out_dir@, (k + 1) as nat) is None);
                        if k + 1 < 3 {
                            assert(ancestor(out_dir@, (k + 2) as nat) is None);
                            if k + 2 < 3 {
                                assert(ancestor(out_dir@, (k + 3) as nat) is None);
                            }
                        }
                    }
                    found = false;
                },
            }
        }
        k = k + 1;
    }
    let name = cli_binary_name(windows);
    if found {
        path_join(dir.as_str(), name)
    } else {
        path_join(out_dir, name)
    }
}

} // verus!
