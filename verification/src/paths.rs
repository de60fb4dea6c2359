//! Where the files of the vocabulary live, below the directories that the
//! caller has found.

use vstd::prelude::*;

verus! {

/// `name` below the directory `dir`: the two joined by one `/`, which is left
/// out where `dir` is empty or ends in one.
pub open spec fn joined(dir: Seq<char>, name: Seq<char>) -> Seq<char> {
    if dir.len() == 0 {
        name
    } else if dir.last() == '/' {
        dir + name
    } else {
        dir.push('/') + name
    }
}

/// The path of `name` below `dir`.
pub fn join(dir: &str, name: &str) -> (r: String)
    ensures
        r@ == joined(dir@, name@),
{
    let n = dir.unicode_len();
    let mut out = String::from_str(dir);
    if n > 0 && dir.get_char(n - 1) != '/' {
        proof {
            reveal_strlit("/");
            assert("/"@ =~= seq!['/']);
        }
        out.append("/");
        assert(out@ =~= dir@.push('/'));
    }
    out.append(name);
    out
}

/// The directory of the dictionaries, below the user's local data directory.
pub fn dictionary_dir(data_local_dir: &str) -> (r: String)
    ensures
        r@ == joined(data_local_dir@, "goldendict"@),
{
    join(data_local_dir, "goldendict")
}

/// The database of cards, in the directory of the dictionaries.
pub fn db_path(dictionary_dir: &str) -> (r: String)
    ensures
        r@ == joined(dictionary_dir@, "history.db"@),
{
    join(dictionary_dir, "history.db")
}

/// The frequency table, in the directory of the dictionaries.
pub fn ecdict_path(dictionary_dir: &str) -> (r: String)
    ensures
        r@ == joined(dictionary_dir@, "ecdict.csv"@),
{
    join(dictionary_dir, "ecdict.csv")
}

/// The directory of the logs, below the user's cache directory.
pub fn log_dir(cache_dir: &str) -> (r: String)
    ensures
        r@ == joined(cache_dir@, "goldendict"@),
{
    join(cache_dir, "goldendict")
}

/// The file of favourites, below the user's configuration directory.
pub fn favourites_path(config_dir: &str) -> (r: String)
    ensures
        r@ == joined(joined(config_dir@, "goldendict"@), "favorites"@),
{
    let dir = join(config_dir, "goldendict");
    join(dir.as_str(), "favorites")
}

} // verus!
