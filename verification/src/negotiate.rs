use vstd::prelude::*;
use crate::error::OcpiError;
use crate::versions::{Version, VersionNumber, VersionV};

verus! {

/// Whether some advertised version in `s` carries the number `n`.
pub open spec fn seq_has_version(s: Seq<VersionV>, n: VersionNumber) -> bool {
    exists|i: int| 0 <= i < s.len() && s[i].version == n
}

/// Whether `n` is advertised by both parties.
pub open spec fn is_common(
    local: Seq<VersionV>,
    remote: Seq<VersionV>,
    n: VersionNumber,
) -> bool {
    seq_has_version(local, n) && seq_has_version(remote, n)
}

/// Whether the advertised list `vs` carries the number `n`.
pub fn contains_version(vs: &Vec<Version>, n: VersionNumber) -> (r: bool)
    ensures
        r == seq_has_version(vs.deep_view(), n),
{
    let mut i: usize = 0;
    while i < vs.len()
        invariant
            i <= vs@.len(),
            forall|k: int| 0 <= k < i ==> vs.deep_view()[k].version != n,
        decreases vs@.len() - i,
    {
        if vs[i].version == n {
            proof {
                assert(vs.deep_view()[i as int].version == n);
            }
            return true;
        }
        i = i + 1;
    }
    false
}

/// Select the version both parties support, preferring the highest one under
/// the total order over `VersionNumber`.
///
/// Returns the maximum common version number of the two advertised lists, and
/// fails with `NoCommonVersion` exactly when the two lists share no version
/// number.
pub fn negotiate(local: &Vec<Version>, remote: &Vec<Version>) -> (r: Result<
    VersionNumber,
    OcpiError,
>)
    ensures
        match r {
            Ok(n) => is_common(local.deep_view(), remote.deep_view(), n)
                && forall|m: VersionNumber|
                    is_common(local.deep_view(), remote.deep_view(), m)
                        ==> m.spec_rank() <= n.spec_rank(),
            Err(e) => e == OcpiError::NoCommonVersion && forall|m: VersionNumber|
                !is_common(local.deep_view(), remote.deep_view(), m),
        },
{
    let ghost l = local.deep_view();
    let ghost rm = remote.deep_view();
    let mut best: Option<VersionNumber> = None;
    let mut i: usize = 0;
    while i < local.len()
        invariant
            i <= local@.len(),
            l == local.deep_view(),
            rm == remote.deep_view(),
            match best {
                Some(b) => is_common(l, rm, b),
                None => true,
            },
            forall|m: VersionNumber|
                seq_has_version(l.take(i as int), m) && seq_has_version(rm, m)
                    ==> (best matches Some(b) && m.spec_rank() <= b.spec_rank()),
        decreases local@.len() - i,
    {
        let n = local[i].version;
        proof {
            assert(l[i as int].version == n);
            assert(seq_has_version(l, n));
            assert(l.take(i as int + 1)[i as int].version == n);
        }
        let ghost prev_best = best;
        if contains_version(remote, n) {
            let replace = match best {
                Some(b) => n.rank() > b.rank(),
                None => true,
            };
            if replace {
                best = Some(n);
            }
        }
        proof {
            assert forall|m: VersionNumber|
                seq_has_version(l.take(i as int + 1), m) && seq_has_version(rm, m)
                implies (best matches Some(b) && m.spec_rank() <= b.spec_rank()) by {
                let k = choose|k: int|
                    0 <= k < i + 1 && (#[trigger] l.take(i as int + 1)[k]).version == m;
                if k < i {
                    assert(l.take(i as int)[k].version == m);
                    assert(seq_has_version(l.take(i as int), m));
                } else {
                    assert(m == n);
                }
            }
        }
        i = i + 1;
    }
    proof {
        assert(l.take(local@.len() as int) =~= l);
    }
    match best {
        Some(b) => Ok(b),
        None => Err(OcpiError::NoCommonVersion),
    }
}

} // verus!

