use vstd::prelude::*;
use vstd::string::StrSliceExecFns;
use vstd::string::StringExecFns;
use crate::normalizer::decide;
use crate::unicode::{is_norm, nfc_of, name_to_nfc};

verus! {

/// Index of the last `/` in `p`, or `-1` when `p` holds none.
pub open spec fn last_slash(p: Seq<char>) -> int
    decreases p.len(),
{
    if p.len() == 0 {
        -1
    } else if p.last() == '/' {
        p.len() - 1
    } else {
        last_slash(p.drop_last())
    }
}

/// Whether the path names a parent directory at all.
pub open spec fn has_dir(p: Seq<char>) -> bool {
    last_slash(p) >= 0
}

/// The directory segment of a path: everything before the last `/`, or
/// empty when there is none.
pub open spec fn dir_part(p: Seq<char>) -> Seq<char> {
    p.subrange(0, if last_slash(p) >= 0 { last_slash(p) } else { 0 })
}

/// The leaf name of a path: everything after the last `/`.
pub open spec fn leaf_part(p: Seq<char>) -> Seq<char> {
    p.subrange(last_slash(p) + 1, p.len() as int)
}

/// A leaf is normal when it is a real name: not empty, and neither the
/// current-directory nor the parent-directory marker.
pub open spec fn normal_leaf(l: Seq<char>) -> bool {
    &&& l.len() > 0
    &&& l != seq!['.']
    &&& l != seq!['.', '.']
}

/// A directory segment joined with a leaf; a path with no directory
/// segment is the leaf alone.
pub open spec fn joined(dir: Seq<char>, leaf: Seq<char>, with_dir: bool) -> Seq<char> {
    if with_dir {
        dir + seq!['/'] + leaf
    } else {
        leaf
    }
}

/// The two full paths a rename works with, rebuilt race-safely at the
/// moment of use.
pub struct ResolvedPaths {
    pub old_path: String,
    pub new_path: String,
    pub needs_rename: bool,
}

/// Split `path` at its last `/`, re-normalize the directory segment to NFC,
/// and join it with the leaf (old path) and with the leaf's NFC candidate
/// (new path).
///
/// The directory segment is re-normalized here, independently and at the
/// moment of use, because a concurrent task may already have renamed an
/// ancestor directory on disk since this entry was discovered; re-deriving
/// the segment avoids operating on a stale directory name. A path whose
/// leaf is not a normal component (empty, `.`, or `..`) is discarded by
/// returning `None`.
pub fn resolve(path: &str) -> (r: Option<ResolvedPaths>)
    ensures
        (r is Some) <==> normal_leaf(leaf_part(path@)),
        r matches Some(rp) ==> {
            &&& rp.old_path@ == joined(nfc_of(dir_part(path@)), leaf_part(path@), has_dir(path@))
            &&& rp.new_path@ == joined(nfc_of(dir_part(path@)), nfc_of(leaf_part(path@)), has_dir(path@))
            &&& rp.needs_rename == !is_norm(leaf_part(path@))
        },
{
    let n = path.unicode_len();
    let mut i: usize = 0;
    let mut slash_found: bool = false;
    let mut ls: usize = 0;
    while i < n
        invariant
            n == path@.len(),
            i <= n,
            slash_found ==> ls < i,
            last_slash(path@.subrange(0, i as int)) == if slash_found { ls as int } else { -1int },
        decreases n - i,
    {
        proof {
            assert(path@.subrange(0, (i + 1) as int).drop_last() =~= path@.subrange(0, i as int));
            assert(path@.subrange(0, (i + 1) as int).last() == path@[i as int]);
        }
        let c = path.get_char(i);
        if c == '/' {
            slash_found = true;
            ls = i;
        }
        i = i + 1;
    }
    proof {
        assert(path@.subrange(0, n as int) =~= path@);
    }

    let leaf: &str = if slash_found {
        path.substring_char(ls + 1, n)
    } else {
        path
    };
    proof {
        if !slash_found {
            assert(path@.subrange(last_slash(path@) + 1, path@.len() as int) =~= path@);
        }
    }

    let leaf_len = leaf.unicode_len();
    if leaf_len == 0 {
        return None;
    }
    if leaf_len == 1 && leaf.get_char(0) == '.' {
        proof {
            assert(leaf@ =~= seq!['.']);
        }
        return None;
    }
    if leaf_len == 2 && leaf.get_char(0) == '.' && leaf.get_char(1) == '.' {
        proof {
            assert(leaf@ =~= seq!['.', '.']);
        }
        return None;
    }
    proof {
        if leaf@ == seq!['.'] {
            assert(leaf@.len() == 1 && leaf@[0] == '.');
        }
        if leaf@ == seq!['.', '.'] {
            assert(leaf@.len() == 2 && leaf@[0] == '.' && leaf@[1] == '.');
        }
    }

    let d = decide(leaf);
    if slash_found {
        let dir: &str = path.substring_char(0, ls);
        let dir_nfc = name_to_nfc(dir);
        let dir_nfc2 = dir_nfc.clone();
        let old_path = dir_nfc.concat("/").concat(d.name.as_str());
        let new_path = dir_nfc2.concat("/").concat(d.candidate.as_str());
        proof {
            reveal_strlit("/");
            assert("/"@ =~= seq!['/']);
        }
        Some(ResolvedPaths { old_path, new_path, needs_rename: d.needs_rename })
    } else {
        Some(ResolvedPaths { old_path: d.name, new_path: d.candidate, needs_rename: d.needs_rename })
    }
}

} // verus!
