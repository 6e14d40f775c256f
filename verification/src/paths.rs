//! Where things lie on disk.
//!
//! Everything derived from the store is kept outside it, in one directory
//! below the user's home, so that the store's own history never sees it.
use vstd::prelude::*;
use vstd::string::StringExecFns;

verus! {

/// The relative path `rel` taken from the directory `dir`.
pub open spec fn below(dir: Seq<char>, rel: Seq<char>) -> Seq<char> {
    if dir.len() == 0 || dir.last() == '/' {
        dir + rel
    } else {
        dir + "/"@ + rel
    }
}

/// The directory for everything derived from the store.
pub open spec fn derived_dir(home: Seq<char>) -> Seq<char> {
    below(home, ".cache/memory-search"@)
}

/// The relative path `rel` taken from the directory `dir`.
fn join(dir: &str, rel: &str) -> (path: String)
    ensures
        path@ == below(dir@, rel@),
{
    let mut path = dir.to_owned();
    let chars = crate::text::chars_of(dir);
    let n: usize = chars.len();
    if n > 0 && chars[n - 1] != '/' {
        path.append("/");
    }
    path.append(rel);
    path
}

/// The directory for everything derived from the store, below the home
/// directory `home`.
pub fn cache_dir(home: &str) -> (path: String)
    ensures
        path@ == derived_dir(home@),
{
    join(home, ".cache/memory-search")
}

/// The file that the embeddings are cached in.
pub fn cache_path(home: &str) -> (path: String)
    ensures
        path@ == below(derived_dir(home@), "index-v1.json"@),
{
    join(cache_dir(home).as_str(), "index-v1.json")
}

/// The socket that the daemon listens on, next to the cache. Every client
/// reaches the one resident index through it.
pub fn socket_path(home: &str) -> (path: String)
    ensures
        path@ == below(derived_dir(home@), "memqd.sock"@),
{
    join(cache_dir(home).as_str(), "memqd.sock")
}

/// The directory of the model files. It is absolute whenever the home
/// directory is: a path relative to the current directory would have the model
/// downloaded again for every directory that the program is started in.
pub fn model_dir(home: &str) -> (path: String)
    ensures
        path@ == below(derived_dir(home@), "models"@),
{
    join(cache_dir(home).as_str(), "models")
}

/// Everything derived stands in one directory below the home directory, and the
/// socket stands beside the cache. A home directory may or may not end with a
/// slash.
pub proof fn law_everything_stands_below_home(home: Seq<char>)
    requires
        home.len() > 0,
        home.last() != '/',
    ensures
        below(derived_dir(home), "index-v1.json"@) == home
            + "/.cache/memory-search/index-v1.json"@,
        below(derived_dir(home), "memqd.sock"@) == home + "/.cache/memory-search/memqd.sock"@,
        below(derived_dir(home), "models"@) == home + "/.cache/memory-search/models"@,
        derived_dir(home + "/"@) == derived_dir(home),
{
    reveal_strlit("/");
    reveal_strlit(".cache/memory-search");
    reveal_strlit("index-v1.json");
    reveal_strlit("memqd.sock");
    reveal_strlit("models");
    reveal_strlit("/.cache/memory-search/index-v1.json");
    reveal_strlit("/.cache/memory-search/memqd.sock");
    reveal_strlit("/.cache/memory-search/models");
    let dir = derived_dir(home);
    assert(dir =~= home + "/"@ + ".cache/memory-search"@);
    assert(dir.last() == 'h');
    assert(below(dir, "index-v1.json"@) =~= home + "/.cache/memory-search/index-v1.json"@);
    assert(below(dir, "memqd.sock"@) =~= home + "/.cache/memory-search/memqd.sock"@);
    assert(below(dir, "models"@) =~= home + "/.cache/memory-search/models"@);
    assert((home + "/"@).last() == '/');
    assert(derived_dir(home + "/"@) =~= dir);
}

} // verus!
