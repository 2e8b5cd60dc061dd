//! Path text clean-up.
use vstd::prelude::*;

use crate::text::{chars_of, push_str, string_from_chars};

verus! {

/// The verbatim prefix of a UNC path: `\\?\UNC\`.
pub open spec fn unc_prefix() -> Seq<char> {
    seq!['\\', '\\', '?', '\\', 'U', 'N', 'C', '\\']
}

/// The verbatim prefix: `\\?\`.
pub open spec fn verbatim_prefix() -> Seq<char> {
    seq!['\\', '\\', '?', '\\']
}

/// The readable form of a path text, when it differs: `\\?\UNC\server\share`
/// becomes `\\server\share`, `\\?\C:\dir` becomes `C:\dir`; any other text
/// is left as it is (`None`).
pub open spec fn strip_verbatim_spec(s: Seq<char>) -> Option<Seq<char>> {
    if s.len() >= 8 && s.take(8) == unc_prefix() {
        Some(seq!['\\', '\\'] + s.skip(8))
    } else if s.len() >= 4 && s.take(4) == verbatim_prefix() {
        Some(s.skip(4))
    } else {
        None
    }
}

fn has_prefix(s: &Vec<char>, p: &Vec<char>) -> (b: bool)
    ensures
        b == (s@.len() >= p@.len() && s@.take(p@.len() as int) == p@),
{
    if s.len() < p.len() {
        return false;
    }
    let mut i: usize = 0;
    while i < p.len()
        invariant
            i <= p.len() <= s.len(),
            forall|j: int| 0 <= j < i ==> s@[j] == p@[j],
        decreases p.len() - i,
    {
        if s[i] != p[i] {
            assert(s@.take(p@.len() as int)[i as int] != p@[i as int]);
            return false;
        }
        i += 1;
    }
    assert(s@.take(p@.len() as int) =~= p@);
    true
}

/// Windows `canonicalize` returns verbatim paths like `\\?\C:\...`; this
/// gives the readable text of such a path (`None` when there is nothing to
/// strip).
pub fn strip_verbatim(path: &str) -> (r: Option<String>)
    ensures
        match strip_verbatim_spec(path@) {
            Some(t) => r matches Some(s) && s@ == t,
            None => r is None,
        },
{
    let s = chars_of(path);
    let unc = chars_of("\\\\?\\UNC\\");
    let verbatim = chars_of("\\\\?\\");
    proof {
        reveal_strlit("\\\\?\\UNC\\");
        reveal_strlit("\\\\?\\");
        assert(unc@ =~= unc_prefix());
        assert(verbatim@ =~= verbatim_prefix());
    }
    if has_prefix(&s, &unc) {
        let mut out: Vec<char> = Vec::new();
        push_str(&mut out, "\\\\");
        proof {
            reveal_strlit("\\\\");
            assert(out@ =~= seq!['\\', '\\'] + s@.subrange(8, 8));
        }
        let mut i: usize = 8;
        while i < s.len()
            invariant
                8 <= i <= s.len(),
                out@ == seq!['\\', '\\'] + s@.subrange(8, i as int),
            decreases s.len() - i,
        {
            out.push(s[i]);
            i += 1;
            assert(s@.subrange(8, i as int) == s@.subrange(8, i - 1).push(s@[i - 1]));
        }
        assert(s@.subrange(8, s@.len() as int) == s@.skip(8));
        Some(string_from_chars(&out))
    } else if has_prefix(&s, &verbatim) {
        let mut out: Vec<char> = Vec::new();
        let mut i: usize = 4;
        while i < s.len()
            invariant
                4 <= i <= s.len(),
                out@ == s@.subrange(4, i as int),
            decreases s.len() - i,
        {
            out.push(s[i]);
            i += 1;
            assert(s@.subrange(4, i as int) == s@.subrange(4, i - 1).push(s@[i - 1]));
        }
        assert(s@.subrange(4, s@.len() as int) == s@.skip(4));
        Some(string_from_chars(&out))
    } else {
        None
    }
}

}
