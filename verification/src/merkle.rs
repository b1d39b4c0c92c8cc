//! Change detection over manifests: a root digest built by pairwise hashing,
//! membership proofs against it, and path-by-path differences.

use crate::hashing::{hash_content, hash_text};
use crate::text::str_equal;
use crate::types::{texts, IndexError, MerkleNode, SyncDiff};
use vstd::prelude::*;
use vstd::string::StringExecFns;

verus! {

/// The digest of two texts joined: the parent of two digests in the tree.
pub open spec fn combine(left: Seq<char>, right: Seq<char>) -> Seq<char> {
    hash_text(left + right)
}

/// The level above `level`: neighbours are combined pairwise from the left, and
/// a last digest without a neighbour moves up as it is.
pub open spec fn next_level(level: Seq<Seq<char>>) -> Seq<Seq<char>>
    decreases level.len(),
{
    if level.len() == 0 {
        Seq::empty()
    } else if level.len() == 1 {
        level
    } else {
        seq![combine(level[0], level[1])] + next_level(level.skip(2))
    }
}

/// A level above holds half as many digests, rounded up.
pub proof fn lemma_next_level_len(level: Seq<Seq<char>>)
    ensures
        next_level(level).len() == (level.len() + 1) / 2,
    decreases level.len(),
{
    if level.len() >= 2 {
        lemma_next_level_len(level.skip(2));
    }
}

/// The root above `level`: the digest of the empty text if there are no digests,
/// else the one digest left after taking the level above again and again.
pub open spec fn root_of(level: Seq<Seq<char>>) -> Seq<char>
    decreases level.len(),
    via root_of_decreases
{
    if level.len() == 0 {
        hash_text(Seq::empty())
    } else if level.len() == 1 {
        level[0]
    } else {
        root_of(next_level(level))
    }
}

#[via_fn]
proof fn root_of_decreases(level: Seq<Seq<char>>) {
    lemma_next_level_len(level);
}

/// The content hashes of a manifest, in its order.
pub open spec fn leaf_hashes(manifest: Seq<MerkleNode>) -> Seq<Seq<char>> {
    Seq::new(manifest.len(), |i: int| manifest[i].hash@)
}

/// The paths of a manifest, in its order.
pub open spec fn paths_of(manifest: Seq<MerkleNode>) -> Seq<Seq<char>> {
    Seq::new(manifest.len(), |i: int| manifest[i].path@)
}

/// The root digest of a manifest.
pub open spec fn merkle_root(manifest: Seq<MerkleNode>) -> Seq<char> {
    root_of(leaf_hashes(manifest))
}

/// The digest of an empty manifest.
pub fn hash_empty() -> (digest: String)
    ensures
        digest@ == hash_text(Seq::empty()),
{
    let digest = hash_content("");
    proof {
        reveal_strlit("");
    }
    digest
}

/// The parent digest of `left` and `right`.
fn hash_pair(left: &str, right: &str) -> (digest: String)
    ensures
        digest@ == combine(left@, right@),
{
    let mut joined = String::from_str(left);
    joined.append(right);
    hash_content(joined.as_str())
}

/// Builds the level above `level`.
fn build_next_level(level: &Vec<String>) -> (next: Vec<String>)
    ensures
        texts(next@) == next_level(texts(level@)),
{
    let mut next: Vec<String> = Vec::new();
    let ghost all = texts(level@);
    let n: usize = level.len();
    let mut i: usize = 0;
    assert(all.skip(0) =~= all);
    while i < n
        invariant
            i <= n,
            n == level@.len(),
            all == texts(level@),
            next_level(all) == texts(next@) + next_level(all.skip(i as int)),
        decreases n - i,
    {
        let ghost rest = all.skip(i as int);
        if n - i >= 2 {
            let parent = hash_pair(level[i].as_str(), level[i + 1].as_str());
            proof {
                assert(rest.skip(2) =~= all.skip(i + 2));
            }
            next.push(parent);
            i += 2;
        } else {
            let last = level[i].clone();
            next.push(last);
            i += 1;
        }
    }
    next
}

/// Builds the root digest of a manifest. The root depends on the order of the
/// entries: the same entries in another order may give another root. Never fails.
pub fn build_tree(files: &[MerkleNode]) -> (res: Result<String, IndexError>)
    ensures
        res is Ok,
        res.unwrap()@ == merkle_root(files@),
{
    if files.len() == 0 {
        return Ok(hash_empty());
    }
    let mut hashes: Vec<String> = Vec::new();
    let mut i: usize = 0;
    while i < files.len()
        invariant
            i <= files@.len(),
            texts(hashes@) == leaf_hashes(files@).take(i as int),
        decreases files@.len() - i,
    {
        let h = files[i].hash.clone();
        proof {
            assert(leaf_hashes(files@).take(i + 1) =~= leaf_hashes(files@).take(i as int).push(
                files@[i as int].hash@,
            ));
        }
        hashes.push(h);
        i += 1;
    }
    assert(leaf_hashes(files@).take(i as int) =~= leaf_hashes(files@));
    while hashes.len() > 1
        invariant
            hashes@.len() >= 1,
            root_of(texts(hashes@)) == merkle_root(files@),
        decreases hashes@.len(),
    {
        proof {
            lemma_next_level_len(texts(hashes@));
        }
        hashes = build_next_level(&hashes);
    }
    Ok(hashes[0].clone())
}

/// Whether `root` is the root digest of `manifest`.
pub open spec fn roots_match(root: Seq<char>, manifest: Seq<MerkleNode>) -> bool {
    root == merkle_root(manifest)
}

/// Whether `old_root` is the root digest of `new_files`. Equal roots mean that
/// nothing changed; unequal roots do not tell which paths did.
pub fn quick_equal(old_root: &str, new_files: &[MerkleNode]) -> (same: bool)
    ensures
        same == roots_match(old_root@, new_files@),
{
    let new_root = build_tree(new_files).unwrap();
    str_equal(old_root, new_root.as_str())
}

/// The root rebuilt from a leaf and the siblings on its way up: at each step the
/// running digest is combined with the next sibling, on the left if the index is
/// even and on the right if it is odd, and the index is halved.
pub open spec fn fold_proof(current: Seq<char>, siblings: Seq<Seq<char>>, index: nat) -> Seq<char>
    decreases siblings.len(),
{
    if siblings.len() == 0 {
        current
    } else {
        let parent = if index % 2 == 0 {
            combine(current, siblings[0])
        } else {
            combine(siblings[0], current)
        };
        fold_proof(parent, siblings.skip(1), index / 2)
    }
}

/// Checks that a leaf belongs to the tree with the given root.
pub fn verify_proof(leaf_hash: &str, proof: &[String], root: &str, index: usize) -> (ok: bool)
    ensures
        ok == (fold_proof(leaf_hash@, texts(proof@), index as nat) == root@),
{
    let mut current = String::from_str(leaf_hash);
    let mut idx: usize = index;
    let mut i: usize = 0;
    let ghost all = texts(proof@);
    assert(all.skip(0) =~= all);
    while i < proof.len()
        invariant
            i <= proof@.len(),
            all == texts(proof@),
            fold_proof(current@, all.skip(i as int), idx as nat) == fold_proof(
                leaf_hash@,
                all,
                index as nat,
            ),
        decreases proof@.len() - i,
    {
        proof {
            assert(all.skip(i as int).skip(1) =~= all.skip(i + 1));
        }
        current = if idx % 2 == 0 {
            hash_pair(current.as_str(), proof[i].as_str())
        } else {
            hash_pair(proof[i].as_str(), current.as_str())
        };
        idx = idx / 2;
        i += 1;
    }
    str_equal(current.as_str(), root)
}

/// Compares the root of `new_files` with `old_root`. With equal roots nothing
/// changed. With unequal roots, and no older manifest to compare with, every
/// path of `new_files` is listed as modified, in manifest order. Never fails.
pub fn compute_diff(old_root: &str, new_files: &[MerkleNode]) -> (res: Result<SyncDiff, IndexError>)
    ensures
        res is Ok,
        res.unwrap().added@.len() == 0,
        res.unwrap().deleted@.len() == 0,
        roots_match(old_root@, new_files@) ==> res.unwrap().modified@.len() == 0,
        !roots_match(old_root@, new_files@) ==> texts(res.unwrap().modified@) == paths_of(
            new_files@,
        ),
{
    let mut modified: Vec<String> = Vec::new();
    if !quick_equal(old_root, new_files) {
        let mut i: usize = 0;
        while i < new_files.len()
            invariant
                i <= new_files@.len(),
                texts(modified@) == paths_of(new_files@).take(i as int),
            decreases new_files@.len() - i,
        {
            let p = new_files[i].path.clone();
            proof {
                assert(paths_of(new_files@).take(i + 1) =~= paths_of(new_files@).take(
                    i as int,
                ).push(new_files@[i as int].path@));
            }
            modified.push(p);
            i += 1;
        }
    }
    Ok(SyncDiff { added: Vec::new(), modified, deleted: Vec::new() })
}

/// The content hash recorded for each path of a manifest. Where a path occurs
/// more than once, the last entry counts.
pub open spec fn manifest_index(manifest: Seq<MerkleNode>) -> Map<Seq<char>, Seq<char>>
    decreases manifest.len(),
{
    if manifest.len() == 0 {
        Map::empty()
    } else {
        manifest_index(manifest.drop_last()).insert(manifest.last().path@, manifest.last().hash@)
    }
}

/// The paths that only the new index holds.
pub open spec fn added_paths(
    old_index: Map<Seq<char>, Seq<char>>,
    new_index: Map<Seq<char>, Seq<char>>,
) -> Set<Seq<char>> {
    Set::new(|p: Seq<char>| new_index.dom().contains(p) && !old_index.dom().contains(p))
}

/// The paths that both indexes hold, with different hashes.
pub open spec fn modified_paths(
    old_index: Map<Seq<char>, Seq<char>>,
    new_index: Map<Seq<char>, Seq<char>>,
) -> Set<Seq<char>> {
    Set::new(
        |p: Seq<char>|
            new_index.dom().contains(p) && old_index.dom().contains(p) && old_index[p]
                != new_index[p],
    )
}

/// The paths that only the old index holds.
pub open spec fn deleted_paths(
    old_index: Map<Seq<char>, Seq<char>>,
    new_index: Map<Seq<char>, Seq<char>>,
) -> Set<Seq<char>> {
    Set::new(|p: Seq<char>| old_index.dom().contains(p) && !new_index.dom().contains(p))
}

/// Whether entry `i` is the last one of its path in the manifest.
pub open spec fn is_last_of_path(manifest: Seq<MerkleNode>, i: int) -> bool {
    &&& 0 <= i < manifest.len()
    &&& forall|k: int| i < k < manifest.len() ==> (#[trigger] manifest[k]).path@ != manifest[i].path@
}

/// A path that no entry has is not in the index.
pub proof fn lemma_index_lacks(manifest: Seq<MerkleNode>, path: Seq<char>)
    requires
        forall|k: int| 0 <= k < manifest.len() ==> (#[trigger] manifest[k]).path@ != path,
    ensures
        !manifest_index(manifest).dom().contains(path),
    decreases manifest.len(),
{
    if manifest.len() > 0 {
        let front = manifest.drop_last();
        assert forall|k: int| 0 <= k < front.len() implies (#[trigger] front[k]).path@ != path by {}
        lemma_index_lacks(front, path);
    }
}

/// The index maps the path of an entry that is the last of its path to that entry's hash.
pub proof fn lemma_index_holds(manifest: Seq<MerkleNode>, i: int)
    requires
        is_last_of_path(manifest, i),
    ensures
        manifest_index(manifest).dom().contains(manifest[i].path@),
        manifest_index(manifest)[manifest[i].path@] == manifest[i].hash@,
    decreases manifest.len(),
{
    let front = manifest.drop_last();
    if i < front.len() {
        assert forall|k: int| i < k < front.len() implies (#[trigger] front[k]).path@
            != front[i].path@ by {}
        lemma_index_holds(front, i);
    }
}

/// Finds the last entry of `files` with the given path.
fn find_last(files: &[MerkleNode], path: &str) -> (found: Option<usize>)
    ensures
        match found {
            Some(i) => is_last_of_path(files@, i as int) && files@[i as int].path@ == path@,
            None => forall|k: int| 0 <= k < files@.len() ==> (#[trigger] files@[k]).path@ != path@,
        },
{
    let mut i: usize = files.len();
    while i > 0
        invariant
            i <= files@.len(),
            forall|k: int| i <= k < files@.len() ==> (#[trigger] files@[k]).path@ != path@,
        decreases i,
    {
        i -= 1;
        if str_equal(files[i].path.as_str(), path) {
            return Some(i);
        }
    }
    None
}

/// For a path in the index, finds the entry that is the last of that path.
pub proof fn lemma_index_witness(manifest: Seq<MerkleNode>, path: Seq<char>) -> (i: int)
    requires
        manifest_index(manifest).dom().contains(path),
    ensures
        is_last_of_path(manifest, i),
        manifest[i].path@ == path,
    decreases manifest.len(),
{
    if manifest.len() == 0 {
        0
    } else if manifest.last().path@ == path {
        manifest.len() - 1
    } else {
        let front = manifest.drop_last();
        let i = lemma_index_witness(front, path);
        assert forall|k: int| i < k < manifest.len() implies (#[trigger] manifest[k]).path@
            != manifest[i].path@ by {
            if k < front.len() {
                assert(front[k].path@ != front[i].path@);
            }
        }
        i
    }
}

/// Whether `out` lists, without repeating any, exactly the paths in `wanted`.
pub open spec fn lists_paths(out: Seq<String>, wanted: Set<Seq<char>>) -> bool {
    &&& texts(out).no_duplicates()
    &&& texts(out).to_set() == wanted
}

/// The paths of `files` that `other` lacks, each once, in the order of their last entries.
fn paths_missing_from(files: &[MerkleNode], other: &[MerkleNode]) -> (out: Vec<String>)
    ensures
        lists_paths(out@, added_paths(manifest_index(other@), manifest_index(files@))),
{
    let mut out: Vec<String> = Vec::new();
    let ghost mut src: Seq<int> = Seq::empty();
    let ghost theirs = manifest_index(other@);
    let mut i: usize = 0;
    while i < files.len()
        invariant
            i <= files@.len(),
            theirs == manifest_index(other@),
            out@.len() == src.len(),
            forall|a: int, b: int| 0 <= a < b < src.len() ==> src[a] < src[b],
            forall|t: int|
                0 <= t < src.len() ==> 0 <= (#[trigger] src[t]) < i && is_last_of_path(
                    files@,
                    src[t],
                ) && out@[t]@ == files@[src[t]].path@ && !theirs.dom().contains(
                    files@[src[t]].path@,
                ),
            forall|j: int|
                0 <= j < i && #[trigger] is_last_of_path(files@, j) && !theirs.dom().contains(
                    files@[j].path@,
                ) ==> src.contains(j),
        decreases files@.len() - i,
    {
        let path = files[i].path.as_str();
        let mine = find_last(files, path);
        if mine == Some(i) {
            let found = find_last(other, path);
            match found {
                None => {
                    let p = files[i].path.clone();
                    proof {
                        lemma_index_lacks(other@, path@);
                        let ghost old_src = src;
                        src = src.push(i as int);
                        assert forall|j: int|
                            0 <= j < i + 1 && #[trigger] is_last_of_path(files@, j)
                                && !theirs.dom().contains(files@[j].path@) implies src.contains(
                            j,
                        ) by {
                            if j < i {
                                let t = choose|t: int| 0 <= t < old_src.len() && old_src[t] == j;
                                assert(src[t] == j);
                            } else {
                                assert(src[src.len() - 1] == j);
                            }
                        }
                    }
                    out.push(p);
                },
                Some(j) => {
                    proof {
                        lemma_index_holds(other@, j as int);
                    }
                },
            }
        } else {
            assert(!is_last_of_path(files@, i as int));
        }
        i += 1;
    }
    proof {
        let wanted = added_paths(theirs, manifest_index(files@));
        let got = texts(out@);
        assert forall|a: int, b: int| 0 <= a < got.len() && 0 <= b < got.len() && a != b implies got[a]
            != got[b] by {
            assert(src[a] < src[b] || src[b] < src[a]);
        }
        assert forall|p: Seq<char>| got.to_set().contains(p) <==> wanted.contains(p) by {
            if got.to_set().contains(p) {
                let t = choose|t: int| 0 <= t < got.len() && got[t] == p;
                lemma_index_holds(files@, src[t]);
            }
            if wanted.contains(p) {
                let j = lemma_index_witness(files@, p);
                let t = choose|t: int| 0 <= t < src.len() && src[t] == j;
                assert(got[t] == p);
            }
        }
        assert(got.to_set() =~= wanted);
    }
    out
}

/// The paths that both manifests hold with different hashes, each once, in the
/// order of their last entries in `new_files`.
fn paths_changed(old_files: &[MerkleNode], new_files: &[MerkleNode]) -> (out: Vec<String>)
    ensures
        lists_paths(out@, modified_paths(manifest_index(old_files@), manifest_index(new_files@))),
{
    let mut out: Vec<String> = Vec::new();
    let ghost mut src: Seq<int> = Seq::empty();
    let ghost before = manifest_index(old_files@);
    let mut i: usize = 0;
    while i < new_files.len()
        invariant
            i <= new_files@.len(),
            before == manifest_index(old_files@),
            out@.len() == src.len(),
            forall|a: int, b: int| 0 <= a < b < src.len() ==> src[a] < src[b],
            forall|t: int|
                0 <= t < src.len() ==> 0 <= (#[trigger] src[t]) < i && is_last_of_path(
                    new_files@,
                    src[t],
                ) && out@[t]@ == new_files@[src[t]].path@ && before.dom().contains(
                    new_files@[src[t]].path@,
                ) && before[new_files@[src[t]].path@] != new_files@[src[t]].hash@,
            forall|j: int|
                0 <= j < i && #[trigger] is_last_of_path(new_files@, j) && before.dom().contains(
                    new_files@[j].path@,
                ) && before[new_files@[j].path@] != new_files@[j].hash@ ==> src.contains(j),
        decreases new_files@.len() - i,
    {
        let path = new_files[i].path.as_str();
        let mine = find_last(new_files, path);
        if mine == Some(i) {
            let found = find_last(old_files, path);
            match found {
                None => {
                    proof {
                        lemma_index_lacks(old_files@, path@);
                    }
                },
                Some(j) => {
                    proof {
                        lemma_index_holds(old_files@, j as int);
                    }
                    if !str_equal(old_files[j].hash.as_str(), new_files[i].hash.as_str()) {
                        let p = new_files[i].path.clone();
                        proof {
                            let ghost old_src = src;
                            src = src.push(i as int);
                            assert forall|k: int|
                                0 <= k < i + 1 && #[trigger] is_last_of_path(new_files@, k)
                                    && before.dom().contains(new_files@[k].path@)
                                    && before[new_files@[k].path@]
                                    != new_files@[k].hash@ implies src.contains(k) by {
                                if k < i {
                                    let t = choose|t: int| 0 <= t < old_src.len() && old_src[t] == k;
                                    assert(src[t] == k);
                                } else {
                                    assert(src[src.len() - 1] == k);
                                }
                            }
                        }
                        out.push(p);
                    }
                },
            }
        } else {
            assert(!is_last_of_path(new_files@, i as int));
        }
        i += 1;
    }
    proof {
        let after = manifest_index(new_files@);
        let wanted = modified_paths(before, after);
        let got = texts(out@);
        assert forall|a: int, b: int| 0 <= a < got.len() && 0 <= b < got.len() && a != b implies got[a]
            != got[b] by {
            assert(src[a] < src[b] || src[b] < src[a]);
        }
        assert forall|p: Seq<char>| got.to_set().contains(p) <==> wanted.contains(p) by {
            if got.to_set().contains(p) {
                let t = choose|t: int| 0 <= t < got.len() && got[t] == p;
                lemma_index_holds(new_files@, src[t]);
            }
            if wanted.contains(p) {
                let j = lemma_index_witness(new_files@, p);
                lemma_index_holds(new_files@, j);
                let t = choose|t: int| 0 <= t < src.len() && src[t] == j;
                assert(got[t] == p);
            }
        }
        assert(got.to_set() =~= wanted);
    }
    out
}

/// Compares two manifests path by path: a path only in the new one is added, a
/// path in both with different hashes is modified, a path only in the old one
/// is deleted. Each list holds its paths once each.
pub fn compute_incremental_diff(old_files: &[MerkleNode], new_files: &[MerkleNode]) -> (diff:
    SyncDiff)
    ensures
        lists_paths(
            diff.added@,
            added_paths(manifest_index(old_files@), manifest_index(new_files@)),
        ),
        lists_paths(
            diff.modified@,
            modified_paths(manifest_index(old_files@), manifest_index(new_files@)),
        ),
        lists_paths(
            diff.deleted@,
            deleted_paths(manifest_index(old_files@), manifest_index(new_files@)),
        ),
        manifest_index(old_files@) == manifest_index(new_files@) ==> diff.added@.len() == 0
            && diff.modified@.len() == 0 && diff.deleted@.len() == 0,
{
    let added = paths_missing_from(new_files, old_files);
    let modified = paths_changed(old_files, new_files);
    let deleted = paths_missing_from(old_files, new_files);
    proof {
        if manifest_index(old_files@) == manifest_index(new_files@) {
            lemma_diff_of_same_is_empty(old_files@, added@, modified@, deleted@);
        }
    }
    SyncDiff { added, modified, deleted }
}

/// A list of paths that lists the empty set is empty.
pub proof fn lemma_lists_nothing(out: Seq<String>)
    requires
        lists_paths(out, Set::empty()),
    ensures
        out.len() == 0,
{
    if out.len() > 0 {
        assert(texts(out)[0] == out[0]@);
        assert(texts(out).to_set().contains(out[0]@));
    }
}

/// The difference of a manifest with itself has three empty lists: whatever
/// lists the paths added, modified and deleted between a manifest and itself
/// lists nothing.
pub proof fn lemma_diff_of_same_is_empty(
    manifest: Seq<MerkleNode>,
    added: Seq<String>,
    modified: Seq<String>,
    deleted: Seq<String>,
)
    requires
        lists_paths(added, added_paths(manifest_index(manifest), manifest_index(manifest))),
        lists_paths(modified, modified_paths(manifest_index(manifest), manifest_index(manifest))),
        lists_paths(deleted, deleted_paths(manifest_index(manifest), manifest_index(manifest))),
    ensures
        added.len() == 0,
        modified.len() == 0,
        deleted.len() == 0,
{
    let index = manifest_index(manifest);
    assert(modified_paths(index, index) =~= Set::<Seq<char>>::empty());
    assert(deleted_paths(index, index) =~= Set::<Seq<char>>::empty());
    lemma_lists_nothing(added);
    lemma_lists_nothing(modified);
    lemma_lists_nothing(deleted);
}

/// The added, the modified and the deleted paths are pairwise disjoint, and
/// together they are the paths on which the two indexes disagree.
pub proof fn lemma_diff_partitions_changes(
    old_index: Map<Seq<char>, Seq<char>>,
    new_index: Map<Seq<char>, Seq<char>>,
    path: Seq<char>,
)
    ensures
        !(added_paths(old_index, new_index).contains(path) && modified_paths(
            old_index,
            new_index,
        ).contains(path)),
        !(added_paths(old_index, new_index).contains(path) && deleted_paths(
            old_index,
            new_index,
        ).contains(path)),
        !(modified_paths(old_index, new_index).contains(path) && deleted_paths(
            old_index,
            new_index,
        ).contains(path)),
        (added_paths(old_index, new_index).contains(path) || modified_paths(
            old_index,
            new_index,
        ).contains(path) || deleted_paths(old_index, new_index).contains(path)) <==> (
        old_index.dom().contains(path) != new_index.dom().contains(path) || (
        old_index.dom().contains(path) && old_index[path] != new_index[path])),
{
}

/// The root built from a manifest matches that manifest.
pub proof fn lemma_quick_equal_reflexive(manifest: Seq<MerkleNode>)
    ensures
        roots_match(merkle_root(manifest), manifest),
{
}

} // verus!
