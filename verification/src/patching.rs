//! The patch pipeline over a model of the installation: backup naming, the
//! staged download, the reversible file swap, rollback, and the orchestrator
//! that ties version gating, source switching, manifest persistence and the
//! active-source marker together.
//!
//! The model holds the installation's files, its per-server manifests, the
//! active-source marker and the local version string as explicit values; the
//! unverified shell mirrors each operation onto the real disk and network.

use vstd::prelude::*;
use vstd::string::*;
use crate::digest::{FileStore, changed_paths_spec, get_changed_paths, listing_entries, listing_ok};
use crate::errors::PatchError;
use crate::manifest::{Manifest, ManifestView};
use crate::store::PathTable;
use crate::text::{str_eq, trim, trim_spec, views_of};

verus! {

/// A server's answer to a patch request: the digest listing and the name of
/// the remote source it came from.
pub struct PatcherResponse {
    pub content: String,
    pub server_name: String,
}

/// The backup sibling of a path: the original name with a fixed suffix.
pub open spec fn backup_of(p: Seq<char>) -> Seq<char> {
    p + ".butterold"@
}

/// `foo/bar.txt` becomes `foo/bar.txt.butterold`.
pub fn backup_name(p: &str) -> (r: String)
    ensures
        r@ == backup_of(p@),
{
    let mut s = p.to_owned();
    s.append(".butterold");
    s
}

/// The downloader's effect on the staging area: each fetched file is written
/// whole (created or truncated), in order, up to a cancellation point.
pub open spec fn stage_spec(
    stg: Map<Seq<char>, Seq<u8>>,
    pairs: Seq<(Seq<char>, Seq<u8>)>,
    k: int,
) -> Map<Seq<char>, Seq<u8>>
    decreases pairs.len(),
{
    if k <= 0 || pairs.len() == 0 {
        stg
    } else {
        stage_spec(stg.insert(pairs[0].0, pairs[0].1), pairs.drop_first(), k - 1)
    }
}

/// The views of fetched (path, bytes) pairs.
pub open spec fn pair_views(s: Seq<(String, Vec<u8>)>) -> Seq<(Seq<char>, Seq<u8>)> {
    s.map_values(|pr: (String, Vec<u8>)| (pr.0@, pr.1@))
}

/// Stages fetched file bodies, one at a time in listing order, overwriting
/// any previous staged copy. A cancellation after `k` files stops the work
/// early and is not an error: the remaining paths stay unfetched.
pub fn stage(staging: &mut FileStore, fetched: &Vec<(String, Vec<u8>)>, cancel_after: Option<usize>)
    -> (done: usize)
    requires
        old(staging).wf(),
    ensures
        final(staging).wf(),
        done == (match cancel_after {
            Some(k) => if k < fetched@.len() {
                k as int
            } else {
                fetched@.len() as int
            },
            None => fetched@.len() as int,
        }),
        final(staging)@ == stage_spec(old(staging)@, pair_views(fetched@), done as int),
{
    let n = fetched.len();
    let limit = match cancel_after {
        Some(k) => if k < n {
            k
        } else {
            n
        },
        None => n,
    };
    let ghost pairs = pair_views(fetched@);
    let mut i: usize = 0;
    proof {
        assert(pairs.skip(0) =~= pairs);
    }
    while i < limit
        invariant
            i <= limit <= n,
            n == fetched@.len(),
            staging.wf(),
            pairs == pair_views(fetched@),
            stage_spec(old(staging)@, pairs, limit as int) == stage_spec(
                staging@,
                pairs.skip(i as int),
                limit - i,
            ),
        decreases limit - i,
    {
        let (p, bytes) = &fetched[i];
        proof {
            assert(pairs.skip(i as int)[0] == pairs[i as int]);
            assert(pairs.skip(i as int).drop_first() =~= pairs.skip(i + 1));
        }
        staging.insert_value(p.as_str(), bytes.clone());
        i += 1;
    }
    proof {
        assert(stage_spec(staging@, pairs.skip(limit as int), 0) == staging@);
    }
    limit
}

/// The state that one file swap steps through: the live files, the staging
/// area, the manifest written so far, and whether the pass is still healthy.
pub ghost struct SwapState {
    pub fs: Map<Seq<char>, Seq<u8>>,
    pub stg: Map<Seq<char>, Seq<u8>>,
    pub m: ManifestView,
    pub ok: bool,
}

/// One changed path swapped into place: an existing destination is first
/// renamed to its backup sibling (replacing any stale backup) and recorded as
/// modified, otherwise the path is recorded as added; then the staged file is
/// moved over the destination. A missing staged file fails the pass at this
/// point, after the backup step already ran.
pub open spec fn swap_one(st: SwapState, path: Seq<char>) -> SwapState {
    let st1 = if st.fs.contains_key(path) {
        SwapState {
            fs: st.fs.remove(path).insert(backup_of(path), st.fs[path]),
            stg: st.stg,
            m: ManifestView { modified: st.m.modified.push(path), added: st.m.added },
            ok: st.ok,
        }
    } else {
        SwapState {
            fs: st.fs,
            stg: st.stg,
            m: ManifestView { modified: st.m.modified, added: st.m.added.push(path) },
            ok: st.ok,
        }
    };
    if st1.stg.contains_key(path) {
        SwapState {
            fs: st1.fs.insert(path, st1.stg[path]),
            stg: st1.stg.remove(path),
            m: st1.m,
            ok: st1.ok,
        }
    } else {
        SwapState { fs: st1.fs, stg: st1.stg, m: st1.m, ok: false }
    }
}

/// The whole swap pass, stopping at the first failure; everything done up to
/// that point, the manifest entries included, stays.
pub open spec fn swap_seq(st: SwapState, paths: Seq<Seq<char>>) -> SwapState
    decreases paths.len(),
{
    if paths.len() == 0 || !st.ok {
        st
    } else {
        swap_seq(swap_one(st, paths[0]), paths.drop_first())
    }
}

/// Moves each staged changed file over its live destination, in input order,
/// backing up any file being overwritten and recording every path in the
/// manifest before its staged copy is placed. On a missing staged file the
/// pass stops with a file error; the manifest keeps the entries of every path
/// processed so far, the failing one included.
pub fn swap_files(
    changed: &Vec<String>,
    staging: &mut FileStore,
    install: &mut FileStore,
    manifest: &mut Manifest,
) -> (r: Result<(), PatchError>)
    requires
        old(staging).wf(),
        old(install).wf(),
    ensures
        final(staging).wf(),
        final(install).wf(),
        ({
            let end = swap_seq(
                SwapState {
                    fs: old(install)@,
                    stg: old(staging)@,
                    m: old(manifest)@,
                    ok: true,
                },
                views_of(changed@),
            );
            &&& final(install)@ == end.fs
            &&& final(staging)@ == end.stg
            &&& final(manifest)@ == end.m
            &&& (r is Ok <==> end.ok)
            &&& (r matches Err(e) ==> e == PatchError::File)
        }),
{
    let ghost paths = views_of(changed@);
    let ghost target = swap_seq(
        SwapState { fs: old(install)@, stg: old(staging)@, m: old(manifest)@, ok: true },
        paths,
    );
    let n = changed.len();
    let mut i: usize = 0;
    proof {
        assert(paths.skip(0) =~= paths);
    }
    while i < n
        invariant
            i <= n,
            n == changed@.len(),
            staging.wf(),
            install.wf(),
            paths == views_of(changed@),
            target == swap_seq(
                SwapState {
                    fs: old(install)@,
                    stg: old(staging)@,
                    m: old(manifest)@,
                    ok: true,
                },
                paths,
            ),
            swap_seq(
                SwapState { fs: install@, stg: staging@, m: manifest@, ok: true },
                paths.skip(i as int),
            ) == target,
        decreases n - i,
    {
        let ghost pre = SwapState { fs: install@, stg: staging@, m: manifest@, ok: true };
        proof {
            assert(paths.skip(i as int)[0] == paths[i as int]);
            assert(paths.skip(i as int).drop_first() =~= paths.skip(i + 1));
        }
        let path = &changed[i];
        if install.contains_path(path.as_str()) {
            let bname = backup_name(path.as_str());
            let bytes = match install.take_value(path.as_str()) {
                Some(b) => b,
                None => {
                    // The destination was just seen to exist, so taking it
                    // cannot fail; the arm is provably unreachable.
                    proof {
                        assert(false);
                    }
                    return Err(PatchError::File);
                },
            };
            install.insert_value(bname.as_str(), bytes);
            manifest.modified_files.push(path.clone());
            proof {
                assert(manifest@.modified =~= pre.m.modified.push(path@));
                assert(manifest@.added =~= pre.m.added);
            }
        } else {
            manifest.added_files.push(path.clone());
            proof {
                assert(manifest@.modified =~= pre.m.modified);
                assert(manifest@.added =~= pre.m.added.push(path@));
            }
        }
        let ghost mid = swap_one(pre, paths[i as int]);
        match staging.take_value(path.as_str()) {
            Some(bytes) => {
                install.insert_value(path.as_str(), bytes);
                proof {
                    assert(install@ == mid.fs);
                    assert(staging@ == mid.stg);
                    assert(manifest@ == mid.m);
                    assert(mid.ok);
                }
            },
            None => {
                proof {
                    assert(install@ == mid.fs);
                    assert(staging@ == mid.stg);
                    assert(manifest@ == mid.m);
                    assert(!mid.ok);
                    assert(swap_seq(mid, paths.skip(i + 1)) == mid);
                    assert(target == mid);
                }
                return Err(PatchError::File);
            },
        }
        i += 1;
    }
    proof {
        assert(paths.skip(n as int) =~= Seq::<Seq<char>>::empty());
        assert(target == SwapState { fs: install@, stg: staging@, m: manifest@, ok: true });
    }
    Ok(())
}

/// One overwritten path restored: when its backup sibling exists, the
/// patched file is deleted and the backup renamed back into place; without a
/// backup the path is left as it is (already restored).
pub open spec fn restore_one(fs: Map<Seq<char>, Seq<u8>>, p: Seq<char>) -> Map<Seq<char>, Seq<u8>> {
    if fs.contains_key(backup_of(p)) {
        fs.remove(backup_of(p)).insert(p, fs[backup_of(p)])
    } else {
        fs
    }
}

/// All overwritten paths restored, in manifest order.
pub open spec fn rollback_modified(
    fs: Map<Seq<char>, Seq<u8>>,
    ps: Seq<Seq<char>>,
) -> Map<Seq<char>, Seq<u8>>
    decreases ps.len(),
{
    if ps.len() == 0 {
        fs
    } else {
        rollback_modified(restore_one(fs, ps[0]), ps.drop_first())
    }
}

/// All added paths deleted, absence ignored.
pub open spec fn remove_added(
    fs: Map<Seq<char>, Seq<u8>>,
    ps: Seq<Seq<char>>,
) -> Map<Seq<char>, Seq<u8>>
    decreases ps.len(),
{
    if ps.len() == 0 {
        fs
    } else {
        remove_added(fs.remove(ps[0]), ps.drop_first())
    }
}

/// A manifest rolled back: overwritten paths restored from their backups,
/// then added paths deleted.
pub open spec fn rollback_spec(fs: Map<Seq<char>, Seq<u8>>, m: ManifestView) -> Map<
    Seq<char>,
    Seq<u8>,
> {
    remove_added(rollback_modified(fs, m.modified), m.added)
}

/// Restores every file a manifest records: each overwritten path gets its
/// backed-up bytes back (missing backups are skipped, not errors), and each
/// added path is deleted.
pub fn rollback_files(manifest: &Manifest, fs: &mut FileStore)
    requires
        old(fs).wf(),
    ensures
        final(fs).wf(),
        final(fs)@ == rollback_spec(old(fs)@, manifest@),
{
    let ghost ms = views_of(manifest.modified_files@);
    let ghost adds = views_of(manifest.added_files@);
    let ghost after_modified = rollback_modified(old(fs)@, ms);
    let n = manifest.modified_files.len();
    let mut i: usize = 0;
    proof {
        assert(ms.skip(0) =~= ms);
    }
    while i < n
        invariant
            i <= n,
            n == manifest.modified_files@.len(),
            fs.wf(),
            ms == views_of(manifest.modified_files@),
            after_modified == rollback_modified(old(fs)@, ms),
            rollback_modified(fs@, ms.skip(i as int)) == after_modified,
        decreases n - i,
    {
        let ghost pre = fs@;
        proof {
            assert(ms.skip(i as int)[0] == ms[i as int]);
            assert(ms.skip(i as int).drop_first() =~= ms.skip(i + 1));
        }
        let p = &manifest.modified_files[i];
        let bname = backup_name(p.as_str());
        match fs.take_value(bname.as_str()) {
            Some(bytes) => {
                fs.remove_path(p.as_str());
                fs.insert_value(p.as_str(), bytes);
                proof {
                    assert(fs@ =~= restore_one(pre, ms[i as int]));
                }
            },
            None => {
                proof {
                    assert(fs@ =~= restore_one(pre, ms[i as int]));
                }
            },
        }
        i += 1;
    }
    proof {
        assert(ms.skip(n as int) =~= Seq::<Seq<char>>::empty());
        assert(fs@ == after_modified);
    }
    let na = manifest.added_files.len();
    let mut j: usize = 0;
    proof {
        assert(adds.skip(0) =~= adds);
    }
    while j < na
        invariant
            j <= na,
            na == manifest.added_files@.len(),
            fs.wf(),
            adds == views_of(manifest.added_files@),
            after_modified == rollback_modified(old(fs)@, views_of(manifest.modified_files@)),
            remove_added(fs@, adds.skip(j as int)) == remove_added(after_modified, adds),
        decreases na - j,
    {
        proof {
            assert(adds.skip(j as int)[0] == adds[j as int]);
            assert(adds.skip(j as int).drop_first() =~= adds.skip(j + 1));
        }
        fs.remove_path(manifest.added_files[j].as_str());
        j += 1;
    }
    proof {
        assert(adds.skip(na as int) =~= Seq::<Seq<char>>::empty());
    }
}

proof fn lemma_backup_distinct(p: Seq<char>, q: Seq<char>)
    requires
        p != q,
    ensures
        backup_of(p) != backup_of(q),
{
    reveal_strlit(".butterold");
    if backup_of(p) == backup_of(q) {
        assert(backup_of(p).len() == p.len() + ".butterold"@.len());
        assert(backup_of(q).len() == q.len() + ".butterold"@.len());
        assert(p.len() == q.len());
        assert(forall|i: int| 0 <= i < p.len() ==> p[i] == backup_of(p)[i] && q[i] == backup_of(
            q,
        )[i]);
        assert(p =~= q);
    }
}

proof fn lemma_restore_restore(fs: Map<Seq<char>, Seq<u8>>, p: Seq<char>, q: Seq<char>)
    requires
        q != p,
        q != backup_of(p),
        backup_of(q) != p,
        backup_of(q) != backup_of(p),
    ensures
        restore_one(restore_one(fs, p), q) == restore_one(restore_one(fs, q), p),
{
    assert(restore_one(restore_one(fs, p), q) =~= restore_one(restore_one(fs, q), p));
}

proof fn lemma_restore_remove(fs: Map<Seq<char>, Seq<u8>>, p: Seq<char>, q: Seq<char>)
    requires
        q != p,
        q != backup_of(p),
    ensures
        restore_one(fs, p).remove(q) == restore_one(fs.remove(q), p),
{
    assert(restore_one(fs, p).remove(q) =~= restore_one(fs.remove(q), p));
}

proof fn lemma_rollback_modified_commute(fs: Map<Seq<char>, Seq<u8>>, p: Seq<char>, qs: Seq<Seq<char>>)
    requires
        forall|k: int|
            0 <= k < qs.len() ==> #[trigger] qs[k] != p && qs[k] != backup_of(p) && backup_of(
                qs[k],
            ) != p && backup_of(qs[k]) != backup_of(p),
    ensures
        rollback_modified(restore_one(fs, p), qs) == restore_one(rollback_modified(fs, qs), p),
    decreases qs.len(),
{
    if qs.len() > 0 {
        lemma_restore_restore(fs, p, qs[0]);
        assert(forall|k: int| 0 <= k < qs.drop_first().len() ==> #[trigger] qs.drop_first()[k]
            == qs[k + 1]);
        lemma_rollback_modified_commute(restore_one(fs, qs[0]), p, qs.drop_first());
    }
}

proof fn lemma_remove_added_commute_restore(
    fs: Map<Seq<char>, Seq<u8>>,
    p: Seq<char>,
    qs: Seq<Seq<char>>,
)
    requires
        forall|k: int| 0 <= k < qs.len() ==> #[trigger] qs[k] != p && qs[k] != backup_of(p),
    ensures
        remove_added(restore_one(fs, p), qs) == restore_one(remove_added(fs, qs), p),
    decreases qs.len(),
{
    if qs.len() > 0 {
        lemma_restore_remove(fs, p, qs[0]);
        assert(forall|k: int| 0 <= k < qs.drop_first().len() ==> #[trigger] qs.drop_first()[k]
            == qs[k + 1]);
        lemma_remove_added_commute_restore(fs.remove(qs[0]), p, qs.drop_first());
    }
}

proof fn lemma_remove_added_commute_remove(
    fs: Map<Seq<char>, Seq<u8>>,
    p: Seq<char>,
    qs: Seq<Seq<char>>,
)
    ensures
        remove_added(fs.remove(p), qs) == remove_added(fs, qs).remove(p),
    decreases qs.len(),
{
    if qs.len() > 0 {
        assert(fs.remove(p).remove(qs[0]) =~= fs.remove(qs[0]).remove(p));
        lemma_remove_added_commute_remove(fs.remove(qs[0]), p, qs.drop_first());
    }
}

/// The inductive heart of reversibility: whatever one swap pass did — in
/// full or cut short by a failure — rolling back the entries it appended to
/// the manifest restores the files it started from. Requires distinct
/// changed paths, no changed path naming a backup, and no stale backups of
/// the changed paths on disk.
proof fn lemma_swap_undo(st: SwapState, ps: Seq<Seq<char>>)
    requires
        st.ok,
        forall|i: int, j: int| 0 <= i < j < ps.len() ==> ps[i] != ps[j],
        forall|i: int, j: int|
            0 <= i < ps.len() && 0 <= j < ps.len() ==> #[trigger] ps[i] != backup_of(
                #[trigger] ps[j],
            ),
        forall|i: int| 0 <= i < ps.len() ==> !st.fs.contains_key(backup_of(#[trigger] ps[i])),
    ensures
        ({
            let end = swap_seq(st, ps);
            let dm = end.m.modified.skip(st.m.modified.len() as int);
            let da = end.m.added.skip(st.m.added.len() as int);
            &&& end.m.modified.len() >= st.m.modified.len()
            &&& end.m.added.len() >= st.m.added.len()
            &&& end.m.modified.take(st.m.modified.len() as int) == st.m.modified
            &&& end.m.added.take(st.m.added.len() as int) == st.m.added
            &&& forall|k: int| 0 <= k < dm.len() ==> ps.contains(#[trigger] dm[k])
            &&& forall|k: int| 0 <= k < da.len() ==> ps.contains(#[trigger] da[k])
            &&& remove_added(rollback_modified(end.fs, dm), da) == st.fs
        }),
    decreases ps.len(),
{
    let end = swap_seq(st, ps);
    let dm = end.m.modified.skip(st.m.modified.len() as int);
    let da = end.m.added.skip(st.m.added.len() as int);
    if ps.len() == 0 {
        assert(dm =~= Seq::<Seq<char>>::empty());
        assert(da =~= Seq::<Seq<char>>::empty());
        assert(end.m.modified.take(st.m.modified.len() as int) =~= st.m.modified);
        assert(end.m.added.take(st.m.added.len() as int) =~= st.m.added);
    } else {
        let p = ps[0];
        let rest = ps.drop_first();
        let st1 = swap_one(st, p);
        assert(forall|k: int| 0 <= k < rest.len() ==> #[trigger] rest[k] == ps[k + 1]);
        let was_present = st.fs.contains_key(p);
        let bak = backup_of(p);
        assert(!st.fs.contains_key(bak));
        if st1.ok {
            // The staged copy existed; the pass went on with the rest.
            assert(forall|i: int| 0 <= i < rest.len() ==> !st1.fs.contains_key(
                backup_of(#[trigger] rest[i]),
            )) by {
                assert(forall|i: int| 0 <= i < rest.len() ==> rest[i] != p && backup_of(
                    #[trigger] rest[i],
                ) != p) by {
                    assert(forall|i: int| 0 <= i < rest.len() ==> #[trigger] ps[i + 1] != ps[0]);
                }
                assert(forall|i: int| 0 <= i < rest.len() ==> backup_of(#[trigger] rest[i])
                    != bak) by {
                    assert forall|i: int| 0 <= i < rest.len() implies backup_of(
                        #[trigger] rest[i],
                    ) != bak by {
                        lemma_backup_distinct(rest[i], p);
                    }
                }
            }
            lemma_swap_undo(st1, rest);
            assert(end == swap_seq(st1, rest));
            let dm1 = end.m.modified.skip(st1.m.modified.len() as int);
            let da1 = end.m.added.skip(st1.m.added.len() as int);
            assert(forall|q: Seq<char>| rest.contains(q) ==> ps.contains(q)) by {
                assert forall|q: Seq<char>| rest.contains(q) implies ps.contains(q) by {
                    let j = choose|j: int| 0 <= j < rest.len() && rest[j] == q;
                    assert(ps[j + 1] == q);
                }
            }
            assert forall|q: Seq<char>| rest.contains(q) implies q != p && q != bak && backup_of(q)
                != p && backup_of(q) != bak by {
                let j = choose|j: int| 0 <= j < rest.len() && rest[j] == q;
                assert(q == ps[j + 1]);
                assert(q != p);
                lemma_backup_distinct(q, p);
            }
            if was_present {
                let ml = st.m.modified.len() as int;
                assert(st1.m.modified == st.m.modified.push(p));
                assert(st1.m.added == st.m.added);
                assert(end.m.modified.take(ml + 1) == st1.m.modified);
                assert(end.m.modified.take(ml + 1)[ml] == end.m.modified[ml]);
                assert(end.m.modified[ml] == p);
                assert(dm =~= seq![p] + dm1);
                assert(da =~= da1);
                assert(end.m.modified.take(st.m.modified.len() as int) =~= st.m.modified);
                assert(rollback_modified(end.fs, dm) == rollback_modified(
                    restore_one(end.fs, p),
                    dm1,
                )) by {
                    assert(dm[0] == p);
                    assert(dm.drop_first() =~= dm1);
                }
                assert(forall|k: int| 0 <= k < dm1.len() ==> rest.contains(#[trigger] dm1[k]));
                lemma_rollback_modified_commute(end.fs, p, dm1);
                lemma_remove_added_commute_restore(rollback_modified(end.fs, dm1), p, da1);
                assert(remove_added(rollback_modified(end.fs, dm), da) == restore_one(
                    remove_added(rollback_modified(end.fs, dm1), da1),
                    p,
                ));
                assert(restore_one(st1.fs, p) =~= st.fs);
            } else {
                let al = st.m.added.len() as int;
                assert(st1.m.added == st.m.added.push(p));
                assert(st1.m.modified == st.m.modified);
                assert(end.m.added.take(al + 1) == st1.m.added);
                assert(end.m.added.take(al + 1)[al] == end.m.added[al]);
                assert(end.m.added[al] == p);
                assert(da =~= seq![p] + da1);
                assert(dm =~= dm1);
                assert(end.m.added.take(st.m.added.len() as int) =~= st.m.added);
                assert(remove_added(rollback_modified(end.fs, dm1), da) == remove_added(
                    rollback_modified(end.fs, dm1).remove(p),
                    da1,
                )) by {
                    assert(da[0] == p);
                    assert(da.drop_first() =~= da1);
                }
                assert(forall|k: int| 0 <= k < dm1.len() ==> rest.contains(#[trigger] dm1[k]));
                lemma_rollback_modified_commute(end.fs, p, dm1);
                lemma_remove_added_commute_remove(rollback_modified(end.fs, dm1), p, da1);
                assert(remove_added(rollback_modified(end.fs, dm1).remove(p), da1) == remove_added(
                    rollback_modified(end.fs, dm1),
                    da1,
                ).remove(p));
                assert(st1.fs.remove(p) =~= st.fs);
            }
        } else {
            // The staged copy was missing: the pass stopped here, with the
            // failing path already recorded and (when present) backed up.
            assert(swap_seq(st1, rest) == st1);
            assert(end == st1);
            if was_present {
                assert(dm =~= seq![p]);
                assert(da =~= Seq::<Seq<char>>::empty());
                assert(end.m.modified.take(st.m.modified.len() as int) =~= st.m.modified);
                assert(end.m.added.take(st.m.added.len() as int) =~= st.m.added);
                assert(dm[0] == p);
                assert(dm.drop_first() =~= Seq::<Seq<char>>::empty());
                assert(rollback_modified(end.fs, dm) == rollback_modified(
                    restore_one(end.fs, p),
                    dm.drop_first(),
                ));
                assert(rollback_modified(restore_one(end.fs, p), dm.drop_first()) == restore_one(
                    end.fs,
                    p,
                ));
                assert(remove_added(restore_one(end.fs, p), da) == restore_one(end.fs, p));
                assert(restore_one(st1.fs, p) =~= st.fs);
            } else {
                assert(dm =~= Seq::<Seq<char>>::empty());
                assert(da =~= seq![p]);
                assert(end.m.modified.take(st.m.modified.len() as int) =~= st.m.modified);
                assert(end.m.added.take(st.m.added.len() as int) =~= st.m.added);
                assert(da[0] == p);
                assert(da.drop_first() =~= Seq::<Seq<char>>::empty());
                assert(rollback_modified(end.fs, dm) == end.fs);
                assert(remove_added(end.fs, da) == remove_added(end.fs.remove(p), da.drop_first()));
                assert(remove_added(end.fs.remove(p), da.drop_first()) == end.fs.remove(p));
                assert(st1.fs.remove(p) =~= st.fs);
            }
        }
    }
}

/// Round-trip reversibility: a swap pass from a fresh manifest — whether it
/// ran to completion or failed partway — is undone exactly by rolling back
/// the manifest it produced: every overwritten path gets its pre-patch bytes
/// back, no added path remains, and no other file is touched. Requires
/// distinct changed paths, none of them naming a backup, and no stale
/// backups of them on disk.
pub proof fn lemma_swap_rollback_round_trip(
    fs0: Map<Seq<char>, Seq<u8>>,
    stg0: Map<Seq<char>, Seq<u8>>,
    ps: Seq<Seq<char>>,
)
    requires
        forall|i: int, j: int| 0 <= i < j < ps.len() ==> ps[i] != ps[j],
        forall|i: int, j: int|
            0 <= i < ps.len() && 0 <= j < ps.len() ==> #[trigger] ps[i] != backup_of(
                #[trigger] ps[j],
            ),
        forall|i: int| 0 <= i < ps.len() ==> !fs0.contains_key(backup_of(#[trigger] ps[i])),
    ensures
        ({
            let end = swap_seq(
                SwapState { fs: fs0, stg: stg0, m: ManifestView::empty(), ok: true },
                ps,
            );
            rollback_spec(end.fs, end.m) == fs0
        }),
{
    let st = SwapState { fs: fs0, stg: stg0, m: ManifestView::empty(), ok: true };
    lemma_swap_undo(st, ps);
    let end = swap_seq(st, ps);
    assert(end.m.modified.skip(0) =~= end.m.modified);
    assert(end.m.added.skip(0) =~= end.m.added);
}

/// The paths a swap pass gets through before it stops: all of them when
/// every staged copy is there, otherwise every path up to and including the
/// first whose staged copy is missing.
pub open spec fn processed_prefix(stg: Map<Seq<char>, Seq<u8>>, ps: Seq<Seq<char>>) -> Seq<
    Seq<char>,
>
    decreases ps.len(),
{
    if ps.len() == 0 {
        Seq::empty()
    } else if stg.contains_key(ps[0]) {
        seq![ps[0]] + processed_prefix(stg, ps.drop_first())
    } else {
        seq![ps[0]]
    }
}

/// Of the given paths, those with a live file to overwrite, in order.
pub open spec fn modified_entries(fs: Map<Seq<char>, Seq<u8>>, ps: Seq<Seq<char>>) -> Seq<
    Seq<char>,
>
    decreases ps.len(),
{
    if ps.len() == 0 {
        Seq::empty()
    } else {
        let head: Seq<Seq<char>> = if fs.contains_key(ps[0]) {
            seq![ps[0]]
        } else {
            Seq::empty()
        };
        head + modified_entries(fs, ps.drop_first())
    }
}

/// Of the given paths, those with no live file, in order.
pub open spec fn added_entries(fs: Map<Seq<char>, Seq<u8>>, ps: Seq<Seq<char>>) -> Seq<Seq<char>>
    decreases ps.len(),
{
    if ps.len() == 0 {
        Seq::empty()
    } else {
        let head: Seq<Seq<char>> = if fs.contains_key(ps[0]) {
            Seq::empty()
        } else {
            seq![ps[0]]
        };
        head + added_entries(fs, ps.drop_first())
    }
}

proof fn lemma_processed_prefix_shape(stg: Map<Seq<char>, Seq<u8>>, ps: Seq<Seq<char>>)
    ensures
        processed_prefix(stg, ps).len() <= ps.len(),
        forall|k: int|
            0 <= k < processed_prefix(stg, ps).len() ==> #[trigger] processed_prefix(stg, ps)[k]
                == ps[k],
    decreases ps.len(),
{
    if ps.len() > 0 && stg.contains_key(ps[0]) {
        lemma_processed_prefix_shape(stg, ps.drop_first());
        assert(forall|k: int|
            1 <= k < processed_prefix(stg, ps).len() ==> #[trigger] processed_prefix(stg, ps)[k]
                == processed_prefix(stg, ps.drop_first())[k - 1]);
    }
}

proof fn lemma_processed_prefix_congruence(
    stg1: Map<Seq<char>, Seq<u8>>,
    stg2: Map<Seq<char>, Seq<u8>>,
    ps: Seq<Seq<char>>,
)
    requires
        forall|i: int|
            0 <= i < ps.len() ==> stg1.contains_key(#[trigger] ps[i]) == stg2.contains_key(ps[i]),
    ensures
        processed_prefix(stg1, ps) == processed_prefix(stg2, ps),
    decreases ps.len(),
{
    if ps.len() > 0 {
        assert(forall|i: int| 0 <= i < ps.drop_first().len() ==> #[trigger] ps.drop_first()[i]
            == ps[i + 1]);
        lemma_processed_prefix_congruence(stg1, stg2, ps.drop_first());
    }
}

proof fn lemma_entries_congruence(
    fs1: Map<Seq<char>, Seq<u8>>,
    fs2: Map<Seq<char>, Seq<u8>>,
    ps: Seq<Seq<char>>,
)
    requires
        forall|i: int|
            0 <= i < ps.len() ==> fs1.contains_key(#[trigger] ps[i]) == fs2.contains_key(ps[i]),
    ensures
        modified_entries(fs1, ps) == modified_entries(fs2, ps),
        added_entries(fs1, ps) == added_entries(fs2, ps),
    decreases ps.len(),
{
    if ps.len() > 0 {
        assert(forall|i: int| 0 <= i < ps.drop_first().len() ==> #[trigger] ps.drop_first()[i]
            == ps[i + 1]);
        lemma_entries_congruence(fs1, fs2, ps.drop_first());
    }
}

proof fn lemma_swap_manifest(st: SwapState, ps: Seq<Seq<char>>)
    requires
        st.ok,
        forall|i: int, j: int| 0 <= i < j < ps.len() ==> ps[i] != ps[j],
        forall|i: int, j: int|
            0 <= i < ps.len() && 0 <= j < ps.len() ==> #[trigger] ps[i] != backup_of(
                #[trigger] ps[j],
            ),
    ensures
        ({
            let end = swap_seq(st, ps);
            let pr = processed_prefix(st.stg, ps);
            &&& end.m.modified == st.m.modified + modified_entries(st.fs, pr)
            &&& end.m.added == st.m.added + added_entries(st.fs, pr)
            &&& (end.ok <==> forall|i: int|
                0 <= i < ps.len() ==> st.stg.contains_key(#[trigger] ps[i]))
        }),
    decreases ps.len(),
{
    let end = swap_seq(st, ps);
    let pr = processed_prefix(st.stg, ps);
    if ps.len() == 0 {
        assert(end.m.modified =~= st.m.modified + modified_entries(st.fs, pr));
        assert(end.m.added =~= st.m.added + added_entries(st.fs, pr));
    } else {
        let p = ps[0];
        let rest = ps.drop_first();
        let st1 = swap_one(st, p);
        assert(forall|k: int| 0 <= k < rest.len() ==> #[trigger] rest[k] == ps[k + 1]);
        if st.stg.contains_key(p) {
            assert(st1.ok);
            assert(end == swap_seq(st1, rest));
            lemma_swap_manifest(st1, rest);
            let pr1 = processed_prefix(st1.stg, rest);
            // Membership in the staging area and in the live files is stable
            // for the remaining paths: only `p` and its backup were touched.
            assert(forall|i: int| 0 <= i < rest.len() ==> st1.stg.contains_key(#[trigger] rest[i])
                == st.stg.contains_key(rest[i]));
            assert forall|i: int| 0 <= i < rest.len() implies st1.fs.contains_key(
                #[trigger] rest[i],
            ) == st.fs.contains_key(rest[i]) by {
                assert(rest[i] == ps[i + 1]);
                assert(rest[i] != p);
                assert(rest[i] != backup_of(p));
            }
            lemma_processed_prefix_congruence(st1.stg, st.stg, rest);
            lemma_processed_prefix_shape(st.stg, rest);
            assert(pr =~= seq![p] + processed_prefix(st.stg, rest));
            assert(pr.drop_first() =~= processed_prefix(st.stg, rest));
            assert forall|i: int| 0 <= i < pr.drop_first().len() implies st1.fs.contains_key(
                #[trigger] pr.drop_first()[i],
            ) == st.fs.contains_key(pr.drop_first()[i]) by {
                assert(pr.drop_first()[i] == rest[i]);
            }
            lemma_entries_congruence(st1.fs, st.fs, pr.drop_first());
            assert((end.ok) <==> (forall|i: int|
                0 <= i < ps.len() ==> st.stg.contains_key(#[trigger] ps[i]))) by {
                if end.ok {
                    assert forall|i: int| 0 <= i < ps.len() implies st.stg.contains_key(
                        #[trigger] ps[i],
                    ) by {
                        if i > 0 {
                            assert(rest[i - 1] == ps[i]);
                            assert(st1.stg.contains_key(rest[i - 1]));
                        }
                    }
                } else {
                    let i = choose|i: int|
                        0 <= i < rest.len() && !st1.stg.contains_key(#[trigger] rest[i]);
                    assert(!st.stg.contains_key(ps[i + 1]));
                }
            }
            if st.fs.contains_key(p) {
                assert(st1.m.modified == st.m.modified.push(p));
                assert(end.m.modified =~= st.m.modified + (seq![p] + modified_entries(
                    st.fs,
                    pr.drop_first(),
                )));
                assert(modified_entries(st.fs, pr) == seq![p] + modified_entries(
                    st.fs,
                    pr.drop_first(),
                ));
                assert(end.m.added =~= st.m.added + added_entries(st.fs, pr.drop_first()));
                assert(added_entries(st.fs, pr) == added_entries(st.fs, pr.drop_first()));
            } else {
                assert(st1.m.added == st.m.added.push(p));
                assert(end.m.added =~= st.m.added + (seq![p] + added_entries(
                    st.fs,
                    pr.drop_first(),
                )));
                assert(added_entries(st.fs, pr) == seq![p] + added_entries(
                    st.fs,
                    pr.drop_first(),
                ));
                assert(end.m.modified =~= st.m.modified + modified_entries(
                    st.fs,
                    pr.drop_first(),
                ));
                assert(modified_entries(st.fs, pr) == modified_entries(st.fs, pr.drop_first()));
            }
        } else {
            assert(!st1.ok);
            assert(swap_seq(st1, rest) == st1);
            assert(end == st1);
            assert(pr =~= seq![p]);
            assert(pr[0] == p);
            assert(pr.drop_first() =~= Seq::<Seq<char>>::empty());
            assert(modified_entries(st.fs, pr.drop_first()) == Seq::<Seq<char>>::empty());
            assert(added_entries(st.fs, pr.drop_first()) == Seq::<Seq<char>>::empty());
            if st.fs.contains_key(p) {
                assert(modified_entries(st.fs, pr) =~= seq![p]);
                assert(added_entries(st.fs, pr) =~= Seq::<Seq<char>>::empty());
                assert(end.m.modified =~= st.m.modified + seq![p]);
                assert(end.m.added =~= st.m.added + Seq::<Seq<char>>::empty());
            } else {
                assert(modified_entries(st.fs, pr) =~= Seq::<Seq<char>>::empty());
                assert(added_entries(st.fs, pr) =~= seq![p]);
                assert(end.m.added =~= st.m.added + seq![p]);
                assert(end.m.modified =~= st.m.modified + Seq::<Seq<char>>::empty());
            }
        }
    }
}

/// Manifest exactness: a swap pass from a fresh manifest records exactly the
/// paths it processed — all of them on success, otherwise every path up to
/// and including the failing one — each under `modified` when a live file
/// was overwritten and under `added` when none was, in pass order. Requires
/// distinct changed paths, none of them naming a backup.
pub proof fn lemma_swap_manifest_exact(
    fs0: Map<Seq<char>, Seq<u8>>,
    stg0: Map<Seq<char>, Seq<u8>>,
    ps: Seq<Seq<char>>,
)
    requires
        forall|i: int, j: int| 0 <= i < j < ps.len() ==> ps[i] != ps[j],
        forall|i: int, j: int|
            0 <= i < ps.len() && 0 <= j < ps.len() ==> #[trigger] ps[i] != backup_of(
                #[trigger] ps[j],
            ),
    ensures
        ({
            let end = swap_seq(
                SwapState { fs: fs0, stg: stg0, m: ManifestView::empty(), ok: true },
                ps,
            );
            let pr = processed_prefix(stg0, ps);
            &&& end.m.modified == modified_entries(fs0, pr)
            &&& end.m.added == added_entries(fs0, pr)
            &&& (end.ok <==> forall|i: int|
                0 <= i < ps.len() ==> stg0.contains_key(#[trigger] ps[i]))
            &&& (end.ok ==> pr == ps)
        }),
{
    let st = SwapState { fs: fs0, stg: stg0, m: ManifestView::empty(), ok: true };
    lemma_swap_manifest(st, ps);
    let end = swap_seq(st, ps);
    let pr = processed_prefix(stg0, ps);
    assert(end.m.modified =~= ManifestView::empty().modified + modified_entries(fs0, pr));
    assert(end.m.added =~= ManifestView::empty().added + added_entries(fs0, pr));
    assert(Seq::<Seq<char>>::empty() + modified_entries(fs0, pr) =~= modified_entries(fs0, pr));
    assert(Seq::<Seq<char>>::empty() + added_entries(fs0, pr) =~= added_entries(fs0, pr));
    if end.ok {
        lemma_processed_prefix_shape(stg0, ps);
        lemma_processed_prefix_full(stg0, ps);
    }
}

proof fn lemma_processed_prefix_full(stg: Map<Seq<char>, Seq<u8>>, ps: Seq<Seq<char>>)
    requires
        forall|i: int| 0 <= i < ps.len() ==> stg.contains_key(#[trigger] ps[i]),
    ensures
        processed_prefix(stg, ps) == ps,
    decreases ps.len(),
{
    if ps.len() > 0 {
        assert(forall|k: int| 0 <= k < ps.drop_first().len() ==> #[trigger] ps.drop_first()[k]
            == ps[k + 1]);
        lemma_processed_prefix_full(stg, ps.drop_first());
        assert(processed_prefix(stg, ps) =~= ps);
    }
}

/// The model of one installation root: its files, the manifest directory,
/// the active-source marker (empty means pristine), and the local version
/// string.
pub struct Install {
    pub files: FileStore,
    pub manifests: PathTable<Manifest>,
    pub active_server: String,
    pub local_version: String,
}

/// The mathematical state of an installation.
pub ghost struct InstallView {
    pub files: Map<Seq<char>, Seq<u8>>,
    pub manifests: Map<Seq<char>, ManifestView>,
    pub active_server: Seq<char>,
    pub local_version: Seq<char>,
}

impl View for Install {
    type V = InstallView;

    open spec fn view(&self) -> InstallView {
        InstallView {
            files: self.files@,
            manifests: self.manifests@,
            active_server: self.active_server@,
            local_version: self.local_version@,
        }
    }
}

impl Install {
    /// Well-formedness of the two tables.
    pub open spec fn wf(&self) -> bool {
        self.files.wf() && self.manifests.wf()
    }

    /// A pristine installation with the given files.
    pub fn new(files: FileStore) -> (r: Install)
        ensures
            r@.files == files@,
            r@.manifests == Map::<Seq<char>, ManifestView>::empty(),
            r@.active_server == Seq::<char>::empty(),
            r@.local_version == Seq::<char>::empty(),
            files.wf() ==> r.wf(),
    {
        let r = Install {
            files,
            manifests: PathTable::new(),
            active_server: String::new(),
            local_version: String::new(),
        };
        r
    }
}

/// The manifest stored for `server`, or the empty manifest when none is:
/// a missing or unreadable manifest means "nothing to roll back".
pub open spec fn manifest_for(ms: Map<Seq<char>, ManifestView>, server: Seq<char>) -> ManifestView {
    if ms.contains_key(server) {
        ms[server]
    } else {
        ManifestView::empty()
    }
}

/// A server's patch pass rolled back: its manifest's files restored, then
/// the manifest deleted unconditionally — rollback is complete once the
/// manifest's work is done.
pub open spec fn restore_server_spec(iv: InstallView, server: Seq<char>) -> InstallView {
    InstallView {
        files: rollback_spec(iv.files, manifest_for(iv.manifests, server)),
        manifests: iv.manifests.remove(server),
        active_server: iv.active_server,
        local_version: iv.local_version,
    }
}

/// Restores every file that `server`'s recorded patch pass changed, then
/// deletes its manifest. With no manifest on record nothing is touched.
pub fn restore_server(inst: &mut Install, server: &str)
    requires
        old(inst).wf(),
    ensures
        final(inst).wf(),
        final(inst)@ == restore_server_spec(old(inst)@, server@),
{
    match inst.manifests.take_value(server) {
        Some(m) => {
            rollback_files(&m, &mut inst.files);
        },
        None => {
            proof {
                let empty = ManifestView::empty();
                assert(rollback_modified(inst.files@, empty.modified) == inst.files@);
                assert(remove_added(inst.files@, empty.added) == inst.files@);
                assert(inst.manifests@.remove(server@) =~= inst.manifests@);
            }
        },
    }
}

/// Rolling a server back twice is the same as rolling it back once: the
/// second call finds no manifest and does nothing.
pub proof fn lemma_rollback_idempotent(iv: InstallView, server: Seq<char>)
    ensures
        restore_server_spec(restore_server_spec(iv, server), server) == restore_server_spec(
            iv,
            server,
        ),
{
    let iv1 = restore_server_spec(iv, server);
    assert(!iv1.manifests.contains_key(server));
    let empty = ManifestView::empty();
    assert(rollback_modified(iv1.files, empty.modified) == iv1.files);
    assert(remove_added(iv1.files, empty.added) == iv1.files);
    assert(iv1.manifests.remove(server) =~= iv1.manifests);
}

/// A reset to pristine: roll back whichever server the marker names, then
/// clear the marker; with an empty marker there is nothing to do.
pub open spec fn reset_spec(iv: InstallView) -> InstallView {
    if iv.active_server.len() == 0 {
        iv
    } else {
        let r = restore_server_spec(iv, iv.active_server);
        InstallView {
            files: r.files,
            manifests: r.manifests,
            active_server: Seq::empty(),
            local_version: r.local_version,
        }
    }
}

/// Resets the installation to its pristine state: rolls back the server the
/// active-source marker names (if any) and clears the marker.
pub fn reset_game_files(inst: &mut Install)
    requires
        old(inst).wf(),
    ensures
        final(inst).wf(),
        final(inst)@ == reset_spec(old(inst)@),
{
    if inst.active_server.as_str().unicode_len() == 0 {
        return ;
    }
    let server = inst.active_server.clone();
    restore_server(inst, server.as_str());
    inst.active_server = String::new();
    proof {
        assert(inst@ == reset_spec(old(inst)@));
    }
}

/// Resetting twice in a row is a no-op the second time.
pub proof fn lemma_reset_idempotent(iv: InstallView)
    ensures
        reset_spec(reset_spec(iv)) == reset_spec(iv),
{
}

/// The source-switch guard: when the marker names a different, non-empty
/// server than the target, that server is rolled back before anything else.
pub open spec fn guard_spec(iv: InstallView, server: Seq<char>) -> InstallView {
    if iv.active_server != server && iv.active_server.len() > 0 {
        restore_server_spec(iv, iv.active_server)
    } else {
        iv
    }
}

/// Whether the version gate short-circuits the pass: only a successfully
/// fetched remote version equal (after trimming) to the trimmed local
/// version counts; a failed fetch forces a full pass.
pub open spec fn version_gate_passes(local: Seq<char>, remote: Option<Seq<char>>) -> bool {
    match remote {
        Some(v) => trim_spec(v) == trim_spec(local),
        None => false,
    }
}

/// The version string written after a full pass.
pub open spec fn version_after(remote: Option<Seq<char>>) -> Seq<char> {
    match remote {
        Some(v) => trim_spec(v),
        None => Seq::empty(),
    }
}

/// What one patch attempt leaves behind.
pub ghost struct PatchOutcome {
    pub inst: InstallView,
    pub stg: Map<Seq<char>, Seq<u8>>,
    pub result: Result<(), PatchError>,
}

/// A patch pass after the source-switch guard. When the version gate passes,
/// no file is touched and only the marker moves. A malformed listing is a
/// network error that changes nothing. Otherwise the changed files are
/// swapped in; the manifest (partial on failure) is persisted either way,
/// and only a fully successful pass moves the marker and the version.
pub open spec fn patch_core_spec(
    iv: InstallView,
    server: Seq<char>,
    remote: Option<Seq<char>>,
    listing: Seq<char>,
    stg: Map<Seq<char>, Seq<u8>>,
) -> PatchOutcome {
    if version_gate_passes(iv.local_version, remote) {
        PatchOutcome {
            inst: InstallView {
                files: iv.files,
                manifests: iv.manifests,
                active_server: server,
                local_version: iv.local_version,
            },
            stg: stg,
            result: Ok(()),
        }
    } else if !listing_ok(listing) {
        PatchOutcome { inst: iv, stg: stg, result: Err(PatchError::Network) }
    } else {
        let changed = changed_paths_spec(listing_entries(listing), iv.files);
        let end = swap_seq(
            SwapState { fs: iv.files, stg: stg, m: ManifestView::empty(), ok: true },
            changed,
        );
        let manifests1 = iv.manifests.insert(server, end.m);
        if end.ok {
            PatchOutcome {
                inst: InstallView {
                    files: end.fs,
                    manifests: manifests1,
                    active_server: server,
                    local_version: version_after(remote),
                },
                stg: end.stg,
                result: Ok(()),
            }
        } else {
            PatchOutcome {
                inst: InstallView {
                    files: end.fs,
                    manifests: manifests1,
                    active_server: iv.active_server,
                    local_version: iv.local_version,
                },
                stg: end.stg,
                result: Err(PatchError::File),
            }
        }
    }
}

/// A whole patch attempt: the source-switch guard, then the core pass.
pub open spec fn patch_spec(
    iv: InstallView,
    server: Seq<char>,
    remote: Option<Seq<char>>,
    listing: Seq<char>,
    stg: Map<Seq<char>, Seq<u8>>,
) -> PatchOutcome {
    patch_core_spec(guard_spec(iv, server), server, remote, listing, stg)
}

/// Source-switch safety: patching server B while the marker names a
/// different, non-empty server A runs the whole core pass — version gate,
/// check, swap — on the state in which A's manifested files have already
/// been fully restored and A's manifest deleted.
pub proof fn lemma_source_switch_guard(
    iv: InstallView,
    server: Seq<char>,
    remote: Option<Seq<char>>,
    listing: Seq<char>,
    stg: Map<Seq<char>, Seq<u8>>,
)
    requires
        iv.active_server != server,
        iv.active_server.len() > 0,
    ensures
        patch_spec(iv, server, remote, listing, stg) == patch_core_spec(
            restore_server_spec(iv, iv.active_server),
            server,
            remote,
            listing,
            stg,
        ),
{
}

/// Version-gate short-circuit: when the fetched remote version matches the
/// local one, the pass changes no file, no manifest and no staging content,
/// leaves the version as it was, succeeds — and still moves the
/// active-source marker to the target server.
pub proof fn lemma_version_gate_short_circuit(
    iv: InstallView,
    server: Seq<char>,
    remote: Option<Seq<char>>,
    listing: Seq<char>,
    stg: Map<Seq<char>, Seq<u8>>,
)
    requires
        version_gate_passes(iv.local_version, remote),
    ensures
        ({
            let g = guard_spec(iv, server);
            let o = patch_spec(iv, server, remote, listing, stg);
            &&& o.inst.files == g.files
            &&& o.inst.manifests == g.manifests
            &&& o.inst.active_server == server
            &&& o.inst.local_version == iv.local_version
            &&& o.stg == stg
            &&& o.result == Ok::<(), PatchError>(())
        }),
{
}

/// Reversibility at the installation level: a full pass for `server` —
/// complete or cut short by a swap failure — followed by rolling that server
/// back returns every file to exactly what it was after the source-switch
/// guard. Requires what a well-behaved remote guarantees: distinct listing
/// paths, none of them naming a backup, and no stale backups of them on
/// disk.
pub proof fn lemma_patch_reversible(
    iv: InstallView,
    server: Seq<char>,
    remote: Option<Seq<char>>,
    listing: Seq<char>,
    stg: Map<Seq<char>, Seq<u8>>,
)
    requires
        !version_gate_passes(guard_spec(iv, server).local_version, remote),
        listing_ok(listing),
        ({
            let changed = changed_paths_spec(listing_entries(listing), guard_spec(iv, server).files);
            &&& forall|i: int, j: int| 0 <= i < j < changed.len() ==> changed[i] != changed[j]
            &&& forall|i: int, j: int|
                0 <= i < changed.len() && 0 <= j < changed.len() ==> #[trigger] changed[i]
                    != backup_of(#[trigger] changed[j])
            &&& forall|i: int|
                0 <= i < changed.len() ==> !guard_spec(iv, server).files.contains_key(
                    backup_of(#[trigger] changed[i]),
                )
        }),
    ensures
        ({
            let o = patch_spec(iv, server, remote, listing, stg);
            restore_server_spec(o.inst, server).files == guard_spec(iv, server).files
        }),
{
    let iv1 = guard_spec(iv, server);
    let changed = changed_paths_spec(listing_entries(listing), iv1.files);
    lemma_swap_rollback_round_trip(iv1.files, stg, changed);
    let o = patch_spec(iv, server, remote, listing, stg);
    assert(o.inst.manifests.contains_key(server));
    assert(manifest_for(o.inst.manifests, server) == swap_seq(
        SwapState { fs: iv1.files, stg: stg, m: ManifestView::empty(), ok: true },
        changed,
    ).m);
}

/// The view of an optionally fetched remote version.
pub open spec fn remote_view(remote: Option<&String>) -> Option<Seq<char>> {
    match remote {
        Some(v) => Some(v@),
        None => None,
    }
}

/// One patch attempt against the installation model. `resp` carries the
/// digest listing and the target server's name; `remote` is the fetched
/// remote version, if the fetch succeeded; `staging` holds the downloaded
/// file bodies by relative path.
pub fn patch(
    inst: &mut Install,
    resp: &PatcherResponse,
    remote: Option<&String>,
    staging: &mut FileStore,
) -> (r: Result<(), PatchError>)
    requires
        old(inst).wf(),
        old(staging).wf(),
    ensures
        final(inst).wf(),
        final(staging).wf(),
        ({
            let o = patch_spec(
                old(inst)@,
                resp.server_name@,
                remote_view(remote),
                resp.content@,
                old(staging)@,
            );
            final(inst)@ == o.inst && final(staging)@ == o.stg && r == o.result
        }),
{
    let ghost iv0 = inst@;
    // Source-switch guard: roll back any different server still active.
    let prev = inst.active_server.clone();
    if !str_eq(prev.as_str(), resp.server_name.as_str()) && prev.as_str().unicode_len() > 0 {
        restore_server(inst, prev.as_str());
    }
    let ghost iv1 = inst@;
    proof {
        assert(iv1 == guard_spec(iv0, resp.server_name@));
    }
    // Version gate: with matching versions, only the marker moves.
    let gate = match remote {
        Some(v) => {
            let local = inst.local_version.clone();
            str_eq(trim(v.as_str()), trim(local.as_str()))
        },
        None => false,
    };
    if gate {
        inst.active_server = resp.server_name.clone();
        return Ok(());
    }
    // Check: the content-addressable comparison against the local files.
    let changed = match get_changed_paths(resp.content.as_str(), &inst.files) {
        Ok(c) => c,
        Err(e) => {
            return Err(e);
        },
    };
    // Swap, writing the manifest; persist it even after a partial failure so
    // that every file that did change stays reversible.
    let mut manifest = Manifest::default();
    let swapped = swap_files(&changed, staging, &mut inst.files, &mut manifest);
    inst.manifests.insert_value(resp.server_name.as_str(), manifest);
    match swapped {
        Ok(()) => {
            inst.active_server = resp.server_name.clone();
            inst.local_version = match remote {
                Some(v) => trim(v.as_str()).to_owned(),
                None => String::new(),
            };
            Ok(())
        },
        Err(e) => Err(e),
    }
}

} // verus!
