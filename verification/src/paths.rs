//! Path arithmetic over strings: joining a directory and an entry name,
//! and taking the base name of a path.

use vstd::prelude::*;

verus! {

/// The base name of a path: the suffix after the last '/', the whole of
/// `s` when it holds no '/', and empty when `s` ends with one.
pub open spec fn spec_file_name(s: Seq<char>) -> Seq<char>
    decreases s.len(),
{
    if s.len() == 0 {
        s
    } else if s.last() == '/' {
        Seq::empty()
    } else {
        spec_file_name(s.drop_last()).push(s.last())
    }
}

/// When no '/' occurs at or after position `k` and `k` sits right after a
/// '/' (or at the start), the base name is the suffix from `k` on.
proof fn lemma_file_name_subrange(s: Seq<char>, k: int)
    requires
        0 <= k <= s.len(),
        k == 0 || s[k - 1] == '/',
        forall|j: int| k <= j < s.len() ==> s[j] != '/',
    ensures
        spec_file_name(s) == s.subrange(k, s.len() as int),
    decreases s.len(),
{
    if s.len() == 0 {
        assert(s.subrange(0, 0) =~= s);
    } else if k == s.len() {
        assert(s.subrange(k, s.len() as int) =~= Seq::<char>::empty());
    } else {
        assert(s[s.len() - 1] != '/');
        let d = s.drop_last();
        assert(forall|j: int| 0 <= j < d.len() ==> d[j] == s[j]);
        lemma_file_name_subrange(d, k);
        assert(d.subrange(k, d.len() as int).push(s.last()) =~= s.subrange(k, s.len() as int));
    }
}

/// The base name of `path`: everything after the last '/', or the whole
/// path when it holds none.
pub fn file_name_of(path: &str) -> (r: String)
    ensures
        r@ == spec_file_name(path@),
{
    let len = path.unicode_len();
    let mut k = len;
    while k > 0 && path.get_char(k - 1) != '/'
        invariant
            0 <= k <= len,
            len == path@.len(),
            forall|j: int| k <= j < len ==> path@[j] != '/',
        decreases k,
    {
        k = k - 1;
    }
    proof {
        lemma_file_name_subrange(path@, k as int);
    }
    path.substring_char(k, len).to_owned()
}

/// Joins a directory path and an entry name with a single '/'.
pub fn join(dir: &str, name: &str) -> (r: String)
    ensures
        r@ == dir@ + "/"@ + name@,
{
    let mut r = dir.to_owned();
    r.append("/");
    r.append(name);
    r
}

} // verus!
