//! The sandboxed file system guard: every workspace file operation must name
//! a path inside the workspace root. The I/O itself belongs to the caller;
//! this type provides the verified admission check.
//!
//! The spec asks for the check on the canonicalized target. Canonicalizing
//! is disk I/O and stays with the caller, who canonicalizes the root; the
//! guard therefore also refuses any path with a parent-directory component,
//! so that a target that was not canonicalized cannot name anything outside
//! the root.

use vstd::prelude::*;
use vstd::utf8::encode_utf8;
use crate::errors::SyncError;

verus! {

/// Whether `p` names the root itself or something strictly inside it,
/// compared over the UTF-8 bytes of the two paths: equal, or the root
/// followed by a path separator.
pub open spec fn path_within(root: Seq<char>, p: Seq<char>) -> bool {
    let rb = encode_utf8(root);
    let pb = encode_utf8(p);
    ||| pb == rb
    ||| (pb.len() > rb.len() && pb.take(rb.len() as int) == rb && pb[rb.len() as int] == 0x2F)
}

/// Whether the path has a `..` component: a `..` bounded by separators or
/// by an end of the path.
pub open spec fn has_dotdot(p: Seq<char>) -> bool {
    let pb = encode_utf8(p);
    exists|k: int|
        0 <= k && k + 2 <= pb.len() && #[trigger] pb[k] == 0x2E && pb[k + 1] == 0x2E && (k == 0
            || pb[k - 1] == 0x2F) && (k + 2 == pb.len() || pb[k + 2] == 0x2F)
}

/// Whether `p` lies within `root` (the root itself or below it).
pub fn is_within(root: &str, p: &str) -> (r: bool)
    ensures
        r == path_within(root@, p@),
{
    let rb = root.as_bytes();
    let pb = p.as_bytes();
    if pb.len() < rb.len() {
        proof {
            assert(!path_within(root@, p@));
        }
        return false;
    }
    let mut i: usize = 0;
    while i < rb.len()
        invariant
            i <= rb@.len(),
            rb@.len() <= pb@.len(),
            rb@ == encode_utf8(root@),
            pb@ == encode_utf8(p@),
            forall|j: int| 0 <= j < i ==> pb@[j] == rb@[j],
        decreases rb@.len() - i,
    {
        if pb[i] != rb[i] {
            proof {
                assert(pb@.take(rb@.len() as int)[i as int] == pb@[i as int]);
                assert(pb@.take(rb@.len() as int) != rb@);
                if pb@ == rb@ {
                    assert(pb@[i as int] == rb@[i as int]);
                }
            }
            return false;
        }
        i = i + 1;
    }
    proof {
        assert(pb@.take(rb@.len() as int) =~= rb@);
    }
    if pb.len() == rb.len() {
        proof {
            assert(pb@ =~= rb@);
        }
        return true;
    }
    if pb[rb.len()] == 0x2F {
        return true;
    }
    proof {
        assert(pb@ != rb@);
    }
    false
}

/// Whether the path has a `..` component.
pub fn has_parent_component(p: &str) -> (r: bool)
    ensures
        r == has_dotdot(p@),
{
    let pb = p.as_bytes();
    let pl = pb.len();
    if pl < 2 {
        proof {
            if has_dotdot(p@) {
                let k = choose|k: int|
                    0 <= k && k + 2 <= pb@.len() && #[trigger] pb@[k] == 0x2E && pb@[k + 1]
                        == 0x2E && (k == 0 || pb@[k - 1] == 0x2F) && (k + 2 == pb@.len() || pb@[k
                        + 2] == 0x2F);
            }
        }
        return false;
    }
    let mut k: usize = 0;
    while k <= pl - 2
        invariant
            2 <= pl == pb@.len(),
            pb@ == encode_utf8(p@),
            k <= pl - 1,
            forall|k2: int|
                0 <= k2 < k ==> !(#[trigger] pb@[k2] == 0x2E && pb@[k2 + 1] == 0x2E && (k2 == 0
                    || pb@[k2 - 1] == 0x2F) && (k2 + 2 == pb@.len() || pb@[k2 + 2] == 0x2F)),
        decreases pl - k,
    {
        let hit = pb[k] == 0x2E && pb[k + 1] == 0x2E && (k == 0 || pb[k - 1] == 0x2F) && (k + 2
            == pl || pb[k + 2] == 0x2F);
        if hit {
            return true;
        }
        k = k + 1;
    }
    proof {
        if has_dotdot(p@) {
            let k2 = choose|k2: int|
                0 <= k2 && k2 + 2 <= pb@.len() && #[trigger] pb@[k2] == 0x2E && pb@[k2 + 1]
                    == 0x2E && (k2 == 0 || pb@[k2 - 1] == 0x2F) && (k2 + 2 == pb@.len() || pb@[k2
                    + 2] == 0x2F);
        }
    }
    false
}

/// A path-prefix guard over a workspace root.
pub struct FileSystem {
    pub path: String,
}

impl FileSystem {
    /// Guard the given canonical absolute root.
    pub fn new(path: String) -> (r: FileSystem)
        ensures
            r.path@ == path@,
    {
        FileSystem { path }
    }

    /// Admit a path only when it lies within the sandbox and climbs no
    /// parent directory; otherwise the caller must fail its operation with
    /// a permission error.
    pub fn check_path(&self, p: &String) -> (r: Result<(), SyncError>)
        ensures
            r is Ok <==> path_within(self.path@, p@) && !has_dotdot(p@),
            r is Err ==> r->Err_0 == SyncError::Permission,
    {
        if is_within(self.path.as_str(), p.as_str()) && !has_parent_component(p.as_str()) {
            Ok(())
        } else {
            Err(SyncError::Permission)
        }
    }
}

} // verus!
