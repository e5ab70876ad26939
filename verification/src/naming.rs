//! The name-to-filename convention of the store.
//!
//! A flow named `n` is kept in the storage root under the filename
//! `n` followed by the fixed extension `.json`; the storage root is a
//! fixed subdirectory of the working directory.  This module defines
//! the mapping in both directions and proves that it is injective, so
//! that each stored file corresponds to exactly one flow name.

use vstd::prelude::*;
use vstd::string::StrSliceExecFns;
use vstd::string::StringExecFns;

verus! {

/// The fixed filename extension under which every flow is stored.
pub open spec fn flow_ext() -> Seq<char> {
    ".json"@
}

/// The filename under which the flow named `name` is stored: the name
/// with the extension appended.
pub open spec fn flow_key(name: Seq<char>) -> Seq<char> {
    name + flow_ext()
}

/// Whether the filename `f` follows the flow naming convention, that
/// is, ends with the flow extension.
pub open spec fn has_flow_ext(f: Seq<char>) -> bool {
    f.len() >= flow_ext().len() && f.skip(f.len() - flow_ext().len()) == flow_ext()
}

/// The flow name recovered from a conventional filename: the filename
/// with the extension stripped.
pub open spec fn flow_stem(f: Seq<char>) -> Seq<char> {
    f.take(f.len() - flow_ext().len())
}

/// The filename of every flow follows the convention, and stripping
/// the extension recovers the name.
pub proof fn lemma_key_has_ext(name: Seq<char>)
    ensures
        has_flow_ext(flow_key(name)),
        flow_stem(flow_key(name)) == name,
{
    let f = flow_key(name);
    assert(f.skip(name.len() as int) =~= flow_ext());
    assert(f.take(name.len() as int) =~= name);
}

/// A conventional filename is rebuilt from its own stem.
pub proof fn lemma_key_of_stem(f: Seq<char>)
    requires
        has_flow_ext(f),
    ensures
        flow_key(flow_stem(f)) == f,
{
    assert(flow_stem(f) + flow_ext() =~= f);
}

/// Distinct flow names are stored under distinct filenames.
pub proof fn lemma_key_injective(a: Seq<char>, b: Seq<char>)
    ensures
        flow_key(a) == flow_key(b) ==> a == b,
{
    lemma_key_has_ext(a);
    lemma_key_has_ext(b);
}

/// Builds the filename for a flow name.
pub fn flow_file_name(name: &str) -> (r: String)
    ensures
        r@ == flow_key(name@),
{
    String::from_str(name).concat(".json")
}

/// Whether a directory entry's filename follows the flow naming
/// convention.
pub fn is_flow_file_name(f: &str) -> (r: bool)
    ensures
        r == has_flow_ext(f@),
{
    proof {
        reveal_strlit(".json");
    }
    let n = f.unicode_len();
    if n < 5 {
        return false;
    }
    let r = f.get_char(n - 5) == '.' && f.get_char(n - 4) == 'j' && f.get_char(n - 3) == 's'
        && f.get_char(n - 2) == 'o' && f.get_char(n - 1) == 'n';
    proof {
        let tail = f@.skip(n - 5);
        assert(tail[0] == f@[n - 5]);
        assert(tail[1] == f@[n - 4]);
        assert(tail[2] == f@[n - 3]);
        assert(tail[3] == f@[n - 2]);
        assert(tail[4] == f@[n - 1]);
        if r {
            assert(tail =~= flow_ext());
        }
    }
    r
}

/// The flow name a directory entry stands for: the filename with the
/// extension stripped, or nothing when the entry does not follow the
/// naming convention.
pub fn flow_name_of(f: &str) -> (r: Option<String>)
    ensures
        match r {
            Some(s) => has_flow_ext(f@) && s@ == flow_stem(f@),
            None => !has_flow_ext(f@),
        },
{
    if !is_flow_file_name(f) {
        return None;
    }
    proof {
        reveal_strlit(".json");
    }
    let n = f.unicode_len();
    let s = f.substring_char(0, n - 5);
    Some(String::from_str(s))
}

/// The storage root derived from a working directory: the fixed
/// subdirectory appended to it.
pub open spec fn root_of(cwd: Seq<char>) -> Seq<char> {
    cwd + "/.flowtool"@
}

/// Resolves the storage root from the process's working directory,
/// falling back to the current directory `"."` when the working
/// directory could not be determined.
pub fn resolve_root(cwd: Option<String>) -> (r: String)
    ensures
        match cwd {
            Some(c) => r@ == root_of(c@),
            None => r@ == root_of("."@),
        },
{
    match cwd {
        Some(c) => c.concat("/.flowtool"),
        None => String::from_str(".").concat("/.flowtool"),
    }
}

} // verus!
