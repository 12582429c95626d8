//! Folding change records into a directory tree: one node for each
//! directory that holds a change or lies above one, in lexicographic order
//! of the directory path.

use vstd::prelude::*;
use vstd::string::StringSliceAdditionalSpecFns;
use vstd::utf8::*;
use crate::changes::{
    ChangeRecord, ChangeView, SLASH, change_records, classify, digest_table, dir_part,
    ChangeKind, lemma_record_determined, lemma_record_exists, lemma_utf8_injective, lists_changes,
};
use crate::manifest::MapEntry;
use crate::order::{compare_bytes, lex_lt, lemma_lex_irreflexive, lemma_lex_transitive};

verus! {

broadcast use {encode_utf8_valid_utf8, is_char_boundary_iff_not_is_continuation_byte};

/// A directory and the changes directly inside it.
pub struct DirectoryNode {
    pub path: String,
    pub changes: Vec<ChangeRecord>,
}

impl DirectoryNode {
    /// The UTF-8 encoding of the directory path.
    pub open spec fn key(self) -> Seq<u8> {
        encode_utf8(self.path@)
    }
}

/// `k` is `d` or the part of `d` before one of its `/`.
pub open spec fn is_ancestor_key(k: Seq<u8>, d: Seq<u8>) -> bool {
    ||| k == d
    ||| (k.len() < d.len() && d[k.len() as int] == SLASH && k == d.subrange(0, k.len() as int))
}

/// The directories that the records of `cs` need: each record's directory
/// and every directory above it.
pub open spec fn needed_keys(cs: Set<ChangeView>) -> Set<Seq<u8>> {
    Set::new(
        |k: Seq<u8>| exists|c: ChangeView| cs.contains(c) && is_ancestor_key(k, dir_part(c.path_bytes())),
    )
}

/// The directory paths of the nodes.
pub open spec fn tree_keys(nodes: Seq<DirectoryNode>) -> Set<Seq<u8>> {
    Set::new(|k: Seq<u8>| exists|i: int| 0 <= i < nodes.len() && (#[trigger] nodes[i]).key() == k)
}

/// The records of all nodes.
pub open spec fn tree_records(nodes: Seq<DirectoryNode>) -> Set<ChangeView> {
    Set::new(
        |c: ChangeView|
            exists|i: int, a: int|
                0 <= i < nodes.len() && 0 <= a < nodes[i].changes@.len() && (
                #[trigger] nodes[i].changes@[a])@ == c,
    )
}

/// Records in strictly increasing order of their path bytes.
pub open spec fn changes_sorted(cs: Seq<ChangeRecord>) -> bool {
    forall|a: int, b: int|
        0 <= a < b < cs.len() ==> lex_lt((#[trigger] cs[a]).path_bytes(), (#[trigger] cs[b]).path_bytes())
}

/// Nodes in strictly increasing order of their directory path bytes.
pub open spec fn keys_sorted(nodes: Seq<DirectoryNode>) -> bool {
    forall|i: int, j: int|
        0 <= i < j < nodes.len() ==> lex_lt((#[trigger] nodes[i]).key(), (#[trigger] nodes[j]).key())
}

/// Nodes sorted by directory, each node's records sorted by path and lying
/// directly in the node's directory.
pub open spec fn well_ordered(nodes: Seq<DirectoryNode>) -> bool {
    &&& keys_sorted(nodes)
    &&& forall|i: int| 0 <= i < nodes.len() ==> changes_sorted((#[trigger] nodes[i]).changes@)
    &&& forall|i: int, a: int|
        0 <= i < nodes.len() && 0 <= a < nodes[i].changes@.len() ==> {
            &&& (#[trigger] nodes[i].changes@[a]).wf()
            &&& dir_part(nodes[i].changes@[a].path_bytes()) == nodes[i].key()
        }
}

/// The views of the records of `rs`.
pub open spec fn record_views(rs: Seq<ChangeRecord>) -> Set<ChangeView> {
    Set::new(|c: ChangeView| exists|i: int| 0 <= i < rs.len() && (#[trigger] rs[i])@ == c)
}

/// The change records grouped by directory.
pub struct DirectoryTree {
    pub nodes: Vec<DirectoryNode>,
}

/// `s` holds no `/`.
pub open spec fn has_no_slash(s: Seq<u8>) -> bool {
    forall|i: int| 0 <= i < s.len() ==> s[i] != SLASH
}

/// `k` is a directory directly below `parent`: one non-empty component
/// below the root, or `parent`, a `/` and one component.
pub open spec fn is_child_key(parent: Seq<u8>, k: Seq<u8>) -> bool {
    if parent.len() == 0 {
        k.len() > 0 && has_no_slash(k)
    } else {
        &&& k.len() > parent.len()
        &&& k.subrange(0, parent.len() as int) == parent
        &&& k[parent.len() as int] == SLASH
        &&& has_no_slash(k.subrange(parent.len() + 1int, k.len() as int))
    }
}

fn no_slash_from(k: &[u8], start: usize) -> (r: bool)
    requires
        start <= k@.len(),
    ensures
        r == has_no_slash(k@.subrange(start as int, k@.len() as int)),
{
    let mut i: usize = start;
    while i < k.len()
        invariant
            start <= i <= k@.len(),
            forall|j: int| start <= j < i ==> k@[j] != SLASH,
        decreases k@.len() - i,
    {
        if k[i] == SLASH {
            proof {
                assert(k@.subrange(start as int, k@.len() as int)[i - start] == SLASH);
            }
            return false;
        }
        i = i + 1;
    }
    proof {
        assert forall|j: int| 0 <= j < k@.len() - start implies k@.subrange(
            start as int,
            k@.len() as int,
        )[j] != SLASH by {
            assert(k@.subrange(start as int, k@.len() as int)[j] == k@[start + j]);
        }
    }
    true
}

fn is_child(parent: &[u8], k: &[u8]) -> (r: bool)
    ensures
        r == is_child_key(parent@, k@),
{
    if parent.len() == 0 {
        proof {
            assert(k@.subrange(0, k@.len() as int) =~= k@);
        }
        return k.len() > 0 && no_slash_from(k, 0);
    }
    if k.len() <= parent.len() {
        return false;
    }
    let mut i: usize = 0;
    while i < parent.len()
        invariant
            i <= parent@.len() < k@.len(),
            k@.subrange(0, i as int) == parent@.subrange(0, i as int),
        decreases parent@.len() - i,
    {
        if k[i] != parent[i] {
            proof {
                assert(k@.subrange(0, parent@.len() as int)[i as int] != parent@[i as int]);
            }
            return false;
        }
        proof {
            assert(k@.subrange(0, i + 1) =~= k@.subrange(0, i as int).push(k@[i as int]));
            assert(parent@.subrange(0, i + 1) =~= parent@.subrange(0, i as int).push(
                parent@[i as int],
            ));
        }
        i = i + 1;
    }
    proof {
        assert(parent@.subrange(0, i as int) =~= parent@);
    }
    k[i] == SLASH && no_slash_from(k, i + 1)
}

impl DirectoryTree {
    /// There is no change at all.
    pub fn is_empty(&self) -> (r: bool)
        ensures
            r == (self.nodes@.len() == 0),
    {
        self.nodes.len() == 0
    }

    /// The index of the node of directory `path`, if there is one.
    pub fn position(&self, path: &str) -> (r: Option<usize>)
        ensures
            match r {
                Some(i) => i < self.nodes@.len() && self.nodes@[i as int].key() == path.spec_bytes(),
                None => forall|i: int|
                    0 <= i < self.nodes@.len() ==> (#[trigger] self.nodes@[i]).key() != path.spec_bytes(),
            },
    {
        let pb = path.as_bytes();
        let mut j: usize = 0;
        while j < self.nodes.len()
            invariant
                j <= self.nodes@.len(),
                pb@ == path.spec_bytes(),
                forall|i: int| 0 <= i < j ==> (#[trigger] self.nodes@[i]).key() != pb@,
            decreases self.nodes@.len() - j,
        {
            if compare_bytes(self.nodes[j].path.as_str().as_bytes(), pb) == 0 {
                return Some(j);
            }
            j = j + 1;
        }
        None
    }

    /// The indices of the nodes directly below directory `parent` (the root
    /// when empty), in increasing order, which is the order of their paths.
    pub fn children(&self, parent: &str) -> (r: Vec<usize>)
        ensures
            forall|x: int|
                0 <= x < r@.len() ==> r@[x] < self.nodes@.len() && is_child_key(
                    parent.spec_bytes(),
                    self.nodes@[r@[x] as int].key(),
                ),
            forall|x: int, y: int| 0 <= x < y < r@.len() ==> r@[x] < r@[y],
            forall|j: int|
                0 <= j < self.nodes@.len() && is_child_key(parent.spec_bytes(), #[trigger] self.nodes@[j].key())
                    ==> r@.contains(j as usize),
    {
        let pb = parent.as_bytes();
        let mut r: Vec<usize> = Vec::new();
        let mut j: usize = 0;
        while j < self.nodes.len()
            invariant
                j <= self.nodes@.len(),
                pb@ == parent.spec_bytes(),
                forall|x: int|
                    0 <= x < r@.len() ==> r@[x] < j && is_child_key(
                        pb@,
                        self.nodes@[r@[x] as int].key(),
                    ),
                forall|x: int, y: int| 0 <= x < y < r@.len() ==> r@[x] < r@[y],
                forall|i: int|
                    0 <= i < j && is_child_key(pb@, #[trigger] self.nodes@[i].key()) ==> r@.contains(
                        i as usize,
                    ),
            decreases self.nodes@.len() - j,
        {
            if is_child(pb, self.nodes[j].path.as_str().as_bytes()) {
                let ghost before = r@;
                r.push(j);
                proof {
                    assert(r@[before.len() as int] == j);
                    assert forall|i: int|
                        0 <= i < j + 1 && is_child_key(pb@, #[trigger] self.nodes@[i].key())
                            implies r@.contains(i as usize) by {
                        if i < j {
                            let x = choose|x: int| 0 <= x < before.len() && before[x] == i as usize;
                            assert(r@[x] == i as usize);
                        }
                    }
                }
            }
            j = j + 1;
        }
        r
    }
}

/// Where `key` stands among the sorted node keys: its index, or the index
/// at which it would be inserted.
fn find_node(nodes: &Vec<DirectoryNode>, key: &[u8]) -> (r: Result<usize, usize>)
    requires
        keys_sorted(nodes@),
    ensures
        match r {
            Ok(i) => i < nodes@.len() && nodes@[i as int].key() == key@,
            Err(p) => {
                &&& p <= nodes@.len()
                &&& forall|i: int| 0 <= i < p ==> lex_lt((#[trigger] nodes@[i]).key(), key@)
                &&& forall|i: int| p <= i < nodes@.len() ==> lex_lt(key@, (#[trigger] nodes@[i]).key())
            },
        },
{
    let mut lo: usize = 0;
    let mut hi: usize = nodes.len();
    while lo < hi
        invariant
            lo <= hi <= nodes@.len(),
            keys_sorted(nodes@),
            forall|i: int| 0 <= i < lo ==> lex_lt((#[trigger] nodes@[i]).key(), key@),
            forall|i: int| hi <= i < nodes@.len() ==> lex_lt(key@, (#[trigger] nodes@[i]).key()),
        decreases hi - lo,
    {
        let mid = lo + (hi - lo) / 2;
        let c = compare_bytes(nodes[mid].path.as_str().as_bytes(), key);
        if c == 0 {
            return Ok(mid);
        } else if c < 0 {
            proof {
                assert forall|i: int| 0 <= i < mid + 1 implies lex_lt(
                    (#[trigger] nodes@[i]).key(),
                    key@,
                ) by {
                    if lo <= i < mid {
                        lemma_lex_transitive(nodes@[i].key(), nodes@[mid as int].key(), key@);
                    }
                }
            }
            lo = mid + 1;
        } else {
            proof {
                assert forall|i: int| mid <= i < nodes@.len() implies lex_lt(
                    key@,
                    (#[trigger] nodes@[i]).key(),
                ) by {
                    if mid < i < hi {
                        lemma_lex_transitive(key@, nodes@[mid as int].key(), nodes@[i].key());
                    }
                }
            }
            hi = mid;
        }
    }
    Err(lo)
}

/// Where a record with path bytes `path` stands among the sorted records.
fn find_change(changes: &Vec<ChangeRecord>, path: &[u8]) -> (r: Result<usize, usize>)
    requires
        changes_sorted(changes@),
    ensures
        match r {
            Ok(i) => i < changes@.len() && changes@[i as int].path_bytes() == path@,
            Err(p) => {
                &&& p <= changes@.len()
                &&& forall|i: int| 0 <= i < p ==> lex_lt((#[trigger] changes@[i]).path_bytes(), path@)
                &&& forall|i: int|
                    p <= i < changes@.len() ==> lex_lt(path@, (#[trigger] changes@[i]).path_bytes())
            },
        },
{
    let mut lo: usize = 0;
    let mut hi: usize = changes.len();
    while lo < hi
        invariant
            lo <= hi <= changes@.len(),
            changes_sorted(changes@),
            forall|i: int| 0 <= i < lo ==> lex_lt((#[trigger] changes@[i]).path_bytes(), path@),
            forall|i: int|
                hi <= i < changes@.len() ==> lex_lt(path@, (#[trigger] changes@[i]).path_bytes()),
        decreases hi - lo,
    {
        let mid = lo + (hi - lo) / 2;
        let c = compare_bytes(changes[mid].path.as_str().as_bytes(), path);
        if c == 0 {
            return Ok(mid);
        } else if c < 0 {
            proof {
                assert forall|i: int| 0 <= i < mid + 1 implies lex_lt(
                    (#[trigger] changes@[i]).path_bytes(),
                    path@,
                ) by {
                    if lo <= i < mid {
                        lemma_lex_transitive(
                            changes@[i].path_bytes(),
                            changes@[mid as int].path_bytes(),
                            path@,
                        );
                    }
                }
            }
            lo = mid + 1;
        } else {
            proof {
                assert forall|i: int| mid <= i < changes@.len() implies lex_lt(
                    path@,
                    (#[trigger] changes@[i]).path_bytes(),
                ) by {
                    if mid < i < hi {
                        lemma_lex_transitive(
                            path@,
                            changes@[mid as int].path_bytes(),
                            changes@[i].path_bytes(),
                        );
                    }
                }
            }
            hi = mid;
        }
    }
    Err(lo)
}

/// Makes sure that a node for directory `dir` exists, and returns its index.
fn ensure_node(nodes: &mut Vec<DirectoryNode>, dir: &str) -> (i: usize)
    requires
        well_ordered(old(nodes)@),
    ensures
        well_ordered(final(nodes)@),
        i < final(nodes)@.len(),
        final(nodes)@[i as int].key() == dir.spec_bytes(),
        tree_keys(final(nodes)@) == tree_keys(old(nodes)@).insert(dir.spec_bytes()),
        tree_records(final(nodes)@) == tree_records(old(nodes)@),
{
    let key = dir.as_bytes();
    match find_node(nodes, key) {
        Ok(i) => {
            proof {
                assert(tree_keys(old(nodes)@).contains(dir.spec_bytes()));
                assert(tree_keys(final(nodes)@) =~= tree_keys(old(nodes)@).insert(dir.spec_bytes()));
                assert(tree_records(final(nodes)@) =~= tree_records(old(nodes)@));
            }
            i
        },
        Err(p) => {
            let ghost before = nodes@;
            let node = DirectoryNode { path: dir.to_owned(), changes: Vec::new() };
            nodes.insert(p, node);
            proof {
                let after = nodes@;
                assert(after[p as int] == node);
                assert forall|i: int| 0 <= i < after.len() && i != p implies #[trigger] after[i]
                    == before[if i < p {
                    i
                } else {
                    i - 1
                }] by {}
                assert forall|i: int, j: int| 0 <= i < j < after.len() implies lex_lt(
                    (#[trigger] after[i]).key(),
                    (#[trigger] after[j]).key(),
                ) by {
                    if i != p && j != p {
                        let bi = if i < p { i } else { i - 1 };
                        let bj = if j < p { j } else { j - 1 };
                        assert(after[i] == before[bi]);
                        assert(after[j] == before[bj]);
                    } else if i == p {
                        assert(after[j] == before[j - 1]);
                    } else {
                        assert(after[i] == before[i]);
                    }
                }
                assert forall|i: int| 0 <= i < after.len() implies changes_sorted(
                    (#[trigger] after[i]).changes@,
                ) by {
                    if i != p {
                        let bi = if i < p { i } else { i - 1 };
                        assert(after[i] == before[bi]);
                    }
                }
                assert forall|i: int, a: int|
                    0 <= i < after.len() && 0 <= a < after[i].changes@.len() implies {
                    &&& (#[trigger] after[i].changes@[a]).wf()
                    &&& dir_part(after[i].changes@[a].path_bytes()) == after[i].key()
                } by {
                    let bi = if i < p { i } else { i - 1 };
                    assert(after[i] == before[bi]);
                }
                assert(tree_keys(after) =~= tree_keys(before).insert(dir.spec_bytes())) by {
                    assert forall|k: Seq<u8>| tree_keys(after).contains(k) implies tree_keys(
                        before,
                    ).insert(dir.spec_bytes()).contains(k) by {
                        let i = choose|i: int| 0 <= i < after.len() && (#[trigger] after[i]).key() == k;
                        if i != p {
                            let bi = if i < p { i } else { i - 1 };
                            assert(after[i] == before[bi]);
                        }
                    }
                    assert forall|k: Seq<u8>| tree_keys(before).contains(k) implies tree_keys(
                        after,
                    ).contains(k) by {
                        let i = choose|i: int| 0 <= i < before.len() && (#[trigger] before[i]).key() == k;
                        let ai = if i < p { i } else { i + 1 };
                        assert(after[ai] == before[i]);
                    }
                }
                assert(tree_records(after) =~= tree_records(before)) by {
                    assert forall|c: ChangeView| tree_records(after).contains(c) implies tree_records(
                        before,
                    ).contains(c) by {
                        let (i, a) = choose|i: int, a: int|
                            0 <= i < after.len() && 0 <= a < after[i].changes@.len() && (
                            #[trigger] after[i].changes@[a])@ == c;
                        let bi = if i < p { i } else { i - 1 };
                        assert(after[i] == before[bi]);
                        assert(before[bi].changes@[a]@ == c);
                    }
                    assert forall|c: ChangeView| tree_records(before).contains(c) implies tree_records(
                        after,
                    ).contains(c) by {
                        let (i, a) = choose|i: int, a: int|
                            0 <= i < before.len() && 0 <= a < before[i].changes@.len() && (
                            #[trigger] before[i].changes@[a])@ == c;
                        let ai = if i < p { i } else { i + 1 };
                        assert(after[ai] == before[i]);
                        assert(after[ai].changes@[a]@ == c);
                    }
                }
            }
            p
        },
    }
}

/// Adds `rec` to node `i`, the node of its directory, keeping the node's
/// records sorted.
fn add_change(nodes: &mut Vec<DirectoryNode>, i: usize, rec: ChangeRecord)
    requires
        well_ordered(old(nodes)@),
        i < old(nodes)@.len(),
        rec.wf(),
        dir_part(rec.path_bytes()) == old(nodes)@[i as int].key(),
        forall|c: ChangeView| #[trigger] tree_records(old(nodes)@).contains(c) ==> c.path != rec@.path,
    ensures
        well_ordered(final(nodes)@),
        tree_keys(final(nodes)@) == tree_keys(old(nodes)@),
        tree_records(final(nodes)@) == tree_records(old(nodes)@).insert(rec@),
{
    let pos = match find_change(&nodes[i].changes, rec.path.as_str().as_bytes()) {
        Ok(a) => {
            proof {
                let c = nodes@[i as int].changes@[a as int];
                lemma_utf8_injective(c.path@, rec.path@);
                assert(tree_records(nodes@).contains(c@));
            }
            a
        },
        Err(p) => p,
    };
    let ghost before = nodes@;
    let ghost cs = before[i as int].changes@;
    nodes[i].changes.insert(pos, rec);
    proof {
        let after = nodes@;
        let ncs = after[i as int].changes@;
        assert(ncs == cs.insert(pos as int, rec));
        assert(after[i as int].path == before[i as int].path);
        assert forall|j: int| 0 <= j < after.len() && j != i implies #[trigger] after[j] == before[j] by {}
        assert forall|a: int| 0 <= a < ncs.len() && a != pos implies #[trigger] ncs[a] == cs[if a < pos {
            a
        } else {
            a - 1
        }] by {}
        assert forall|x: int, y: int| 0 <= x < y < after.len() implies lex_lt(
            (#[trigger] after[x]).key(),
            (#[trigger] after[y]).key(),
        ) by {
            assert(before[x].key() == after[x].key());
            assert(before[y].key() == after[y].key());
        }
        assert forall|a: int, b: int| 0 <= a < b < ncs.len() implies lex_lt(
            (#[trigger] ncs[a]).path_bytes(),
            (#[trigger] ncs[b]).path_bytes(),
        ) by {
            if a != pos && b != pos {
                let ba = if a < pos { a } else { a - 1 };
                let bb = if b < pos { b } else { b - 1 };
                assert(ncs[a] == cs[ba]);
                assert(ncs[b] == cs[bb]);
            } else if a == pos {
                assert(ncs[b] == cs[b - 1]);
            } else {
                assert(ncs[a] == cs[a]);
            }
        }
        assert(changes_sorted(ncs));
        assert forall|j: int| 0 <= j < after.len() implies changes_sorted(
            (#[trigger] after[j]).changes@,
        ) by {
            if j != i {
                assert(after[j] == before[j]);
            }
        }
        assert forall|j: int, a: int|
            0 <= j < after.len() && 0 <= a < after[j].changes@.len() implies {
            &&& (#[trigger] after[j].changes@[a]).wf()
            &&& dir_part(after[j].changes@[a].path_bytes()) == after[j].key()
        } by {
            if j != i {
                assert(after[j] == before[j]);
            } else if a != pos {
                let ba = if a < pos { a } else { a - 1 };
                assert(ncs[a] == cs[ba]);
            }
        }
        assert(tree_keys(after) =~= tree_keys(before)) by {
            assert forall|k: Seq<u8>| tree_keys(after).contains(k) implies tree_keys(before).contains(k) by {
                let j = choose|j: int| 0 <= j < after.len() && (#[trigger] after[j]).key() == k;
                assert(before[j].key() == k);
            }
            assert forall|k: Seq<u8>| tree_keys(before).contains(k) implies tree_keys(after).contains(k) by {
                let j = choose|j: int| 0 <= j < before.len() && (#[trigger] before[j]).key() == k;
                assert(after[j].key() == k);
            }
        }
        assert(tree_records(after) =~= tree_records(before).insert(rec@)) by {
            assert forall|c: ChangeView| tree_records(after).contains(c) implies tree_records(
                before,
            ).insert(rec@).contains(c) by {
                let (j, a) = choose|j: int, a: int|
                    0 <= j < after.len() && 0 <= a < after[j].changes@.len() && (
                    #[trigger] after[j].changes@[a])@ == c;
                if j != i {
                    assert(after[j] == before[j]);
                    assert(before[j].changes@[a]@ == c);
                } else if a != pos {
                    let ba = if a < pos { a } else { a - 1 };
                    assert(ncs[a] == cs[ba]);
                    assert(before[j].changes@[ba]@ == c);
                }
            }
            assert forall|c: ChangeView| tree_records(before).insert(rec@).contains(c) implies tree_records(
                after,
            ).contains(c) by {
                if c == rec@ {
                    assert(after[i as int].changes@[pos as int]@ == c);
                } else {
                    let (j, a) = choose|j: int, a: int|
                        0 <= j < before.len() && 0 <= a < before[j].changes@.len() && (
                        #[trigger] before[j].changes@[a])@ == c;
                    if j != i {
                        assert(after[j] == before[j]);
                        assert(after[j].changes@[a]@ == c);
                    } else {
                        let na = if a < pos { a } else { a + 1 };
                        assert(ncs[na] == cs[a]);
                        assert(after[j].changes@[na]@ == c);
                    }
                }
            }
        }
    }
}

/// The directories needed by a set with one more record.
proof fn lemma_needed_keys_insert(cs: Set<ChangeView>, c: ChangeView)
    ensures
        needed_keys(cs.insert(c)) == needed_keys(cs).union(
            Set::new(|k: Seq<u8>| is_ancestor_key(k, dir_part(c.path_bytes()))),
        ),
{
    let rhs = needed_keys(cs).union(Set::new(|k: Seq<u8>| is_ancestor_key(k, dir_part(c.path_bytes()))));
    assert forall|k: Seq<u8>| needed_keys(cs.insert(c)).contains(k) implies rhs.contains(k) by {
        let c2 = choose|c2: ChangeView|
            cs.insert(c).contains(c2) && is_ancestor_key(k, dir_part(c2.path_bytes()));
        if c2 != c {
            assert(cs.contains(c2));
        }
    }
    assert forall|k: Seq<u8>| rhs.contains(k) implies needed_keys(cs.insert(c)).contains(k) by {
        if !is_ancestor_key(k, dir_part(c.path_bytes())) {
            let c2 = choose|c2: ChangeView| cs.contains(c2) && is_ancestor_key(k, dir_part(c2.path_bytes()));
            assert(cs.insert(c).contains(c2));
        } else {
            assert(cs.insert(c).contains(c));
        }
    }
    assert(needed_keys(cs.insert(c)) =~= rhs);
}

/// Groups `records` by directory into a tree: a node for every directory
/// that holds a record and for every directory above one, in lexicographic
/// order of the directory path, each holding its records in lexicographic
/// order of their paths.
pub fn build_tree(records: &Vec<ChangeRecord>) -> (t: DirectoryTree)
    requires
        forall|i: int| 0 <= i < records@.len() ==> (#[trigger] records@[i]).wf(),
        forall|i: int, j: int|
            0 <= i < records@.len() && 0 <= j < records@.len() && i != j ==> (
            #[trigger] records@[i]).path@ != (#[trigger] records@[j]).path@,
    ensures
        well_ordered(t.nodes@),
        tree_records(t.nodes@) == record_views(records@),
        tree_keys(t.nodes@) == needed_keys(record_views(records@)),
{
    let mut nodes: Vec<DirectoryNode> = Vec::new();
    let mut done: usize = 0;
    proof {
        assert(tree_records(nodes@) =~= record_views(records@.subrange(0, 0)));
        assert(needed_keys(tree_records(nodes@)) =~= Set::empty());
        assert(tree_keys(nodes@) =~= Set::empty());
    }
    while done < records.len()
        invariant
            done <= records@.len(),
            forall|i: int| 0 <= i < records@.len() ==> (#[trigger] records@[i]).wf(),
            forall|i: int, j: int|
                0 <= i < records@.len() && 0 <= j < records@.len() && i != j ==> (
                #[trigger] records@[i]).path@ != (#[trigger] records@[j]).path@,
            well_ordered(nodes@),
            tree_records(nodes@) == record_views(records@.subrange(0, done as int)),
            tree_keys(nodes@) == needed_keys(tree_records(nodes@)),
        decreases records@.len() - done,
    {
        let rec = &records[done];
        let dir = rec.directory.as_str();
        let db = dir.as_bytes();
        let ghost k0 = tree_keys(nodes@);
        let ghost r0 = tree_records(nodes@);
        assert(rec.wf());
        let mut s: usize = 0;
        proof {
            assert(Set::new(|k: Seq<u8>| is_ancestor_key(k, db@) && k.len() < 0) =~= Set::empty());
            assert(tree_keys(nodes@) =~= k0.union(
                Set::new(|k: Seq<u8>| is_ancestor_key(k, db@) && k.len() < 0),
            ));
        }
        while s < db.len()
            invariant
                s <= db@.len(),
                db@ == dir.spec_bytes(),
                well_ordered(nodes@),
                tree_records(nodes@) == r0,
                tree_keys(nodes@) == k0.union(
                    Set::new(|k: Seq<u8>| is_ancestor_key(k, db@) && k.len() < s),
                ),
            decreases db@.len() - s,
        {
            let ghost before = tree_keys(nodes@);
            if db[s] == SLASH {
                proof {
                    assert(valid_utf8(encode_utf8(dir@)));
                    assert(!is_continuation_byte(db@[s as int]));
                    assert(is_char_boundary(dir.spec_bytes(), s as int));
                }
                let (pre, _rest) = dir.split_at(s);
                ensure_node(&mut nodes, pre);
            }
            proof {
                assert(tree_keys(nodes@) =~= k0.union(
                    Set::new(|k: Seq<u8>| is_ancestor_key(k, db@) && k.len() < s + 1),
                )) by {
                    assert forall|k: Seq<u8>|
                        is_ancestor_key(k, db@) && k.len() == s implies #[trigger] tree_keys(
                        nodes@,
                    ).contains(k) by {
                        assert(k == db@.subrange(0, s as int));
                    }
                }
            }
            s = s + 1;
        }
        let i = ensure_node(&mut nodes, dir);
        proof {
            assert(tree_keys(nodes@) =~= k0.union(Set::new(|k: Seq<u8>| is_ancestor_key(k, db@))));
            assert forall|c: ChangeView| #[trigger] tree_records(nodes@).contains(c) implies c.path
                != rec@.path by {
                let j = choose|j: int|
                    0 <= j < done && (#[trigger] records@.subrange(0, done as int)[j])@ == c;
                assert(records@.subrange(0, done as int)[j] == records@[j]);
            }
        }
        add_change(&mut nodes, i, rec.duplicate());
        proof {
            lemma_needed_keys_insert(r0, rec@);
            assert(record_views(records@.subrange(0, done + 1)) =~= r0.insert(rec@)) by {
                let sub = records@.subrange(0, done + 1);
                assert forall|c: ChangeView| record_views(sub).contains(c) implies r0.insert(
                    rec@,
                ).contains(c) by {
                    let j = choose|j: int| 0 <= j < sub.len() && (#[trigger] sub[j])@ == c;
                    if j < done {
                        assert(records@.subrange(0, done as int)[j] == sub[j]);
                    }
                }
                assert forall|c: ChangeView| r0.insert(rec@).contains(c) implies record_views(
                    sub,
                ).contains(c) by {
                    if c == rec@ {
                        assert(sub[done as int] == *rec);
                    } else {
                        let j = choose|j: int|
                            0 <= j < done && (#[trigger] records@.subrange(0, done as int)[j])@ == c;
                        assert(sub[j] == records@.subrange(0, done as int)[j]);
                    }
                }
            }
        }
        done = done + 1;
    }
    proof {
        assert(records@.subrange(0, done as int) =~= records@);
    }
    DirectoryTree { nodes }
}

/// The records of every change from `old` to `new`.
pub open spec fn change_set(old: Map<Seq<char>, Seq<u8>>, new: Map<Seq<char>, Seq<u8>>) -> Set<
    ChangeView,
> {
    Set::new(|c: ChangeView| c.wf() && classify(old, new, c.path) == Some(c.kind))
}

/// `nodes` is the tree of the changes from `old` to `new`: it holds exactly
/// their records, and exactly the directories they need, in order.
pub open spec fn describes_changes(
    nodes: Seq<DirectoryNode>,
    old: Map<Seq<char>, Seq<u8>>,
    new: Map<Seq<char>, Seq<u8>>,
) -> bool {
    &&& well_ordered(nodes)
    &&& tree_records(nodes) == change_set(old, new)
    &&& tree_keys(nodes) == needed_keys(change_set(old, new))
}

/// The directory tree of the changes from manifest `old` to manifest `new`.
pub fn diff(old: &Vec<MapEntry>, new: &Vec<MapEntry>) -> (t: DirectoryTree)
    ensures
        describes_changes(t.nodes@, digest_table(old@), digest_table(new@)),
{
    let records = change_records(old, new);
    let ghost ot = digest_table(old@);
    let ghost nt = digest_table(new@);
    proof {
        assert(lists_changes(records@, ot, nt));
        assert(record_views(records@) =~= change_set(ot, nt)) by {
            assert forall|c: ChangeView| change_set(ot, nt).contains(c) implies record_views(
                records@,
            ).contains(c) by {
                assert(classify(ot, nt, c.path) is Some);
                let i = choose|i: int| 0 <= i < records@.len() && (#[trigger] records@[i]).path@ == c.path;
                assert(records@[i].wf());
                lemma_record_determined(records@[i]@, c);
            }
            assert forall|c: ChangeView| record_views(records@).contains(c) implies change_set(
                ot,
                nt,
            ).contains(c) by {
                let i = choose|i: int| 0 <= i < records@.len() && (#[trigger] records@[i])@ == c;
                assert(records@[i].wf());
            }
        }
    }
    build_tree(&records)
}

/// Comparing a manifest with itself finds no change: the tree is empty.
pub proof fn lemma_diff_of_identical_is_empty(entries: Seq<MapEntry>, nodes: Seq<DirectoryNode>)
    requires
        describes_changes(nodes, digest_table(entries), digest_table(entries)),
    ensures
        nodes.len() == 0,
{
    let m = digest_table(entries);
    assert(change_set(m, m) =~= Set::empty());
    assert(needed_keys(change_set(m, m)) =~= Set::empty());
    if nodes.len() > 0 {
        assert(tree_keys(nodes).contains(nodes[0].key()));
    }
}

/// Each path listed in either snapshot falls in exactly one class: unchanged
/// (listed in both with equal digests), added (only in `new`), modified
/// (in both with different digests) or deleted (only in `old`). It has a
/// record in the tree exactly when it changed.
pub proof fn lemma_paths_partitioned(
    nodes: Seq<DirectoryNode>,
    old: Map<Seq<char>, Seq<u8>>,
    new: Map<Seq<char>, Seq<u8>>,
    p: Seq<char>,
)
    requires
        describes_changes(nodes, old, new),
        old.contains_key(p) || new.contains_key(p),
    ensures
        classify(old, new, p) is None <==> (old.contains_key(p) && new.contains_key(p) && old[p]
            == new[p]),
        classify(old, new, p) == Some(ChangeKind::Added) <==> (new.contains_key(p)
            && !old.contains_key(p)),
        classify(old, new, p) == Some(ChangeKind::Modified) <==> (old.contains_key(p)
            && new.contains_key(p) && old[p] != new[p]),
        classify(old, new, p) == Some(ChangeKind::Deleted) <==> (old.contains_key(p)
            && !new.contains_key(p)),
        (exists|c: ChangeView| #[trigger] tree_records(nodes).contains(c) && c.path == p) <==> classify(
            old,
            new,
            p,
        ) is Some,
{
    if classify(old, new, p) is Some {
        lemma_record_exists(p, classify(old, new, p).unwrap());
        let c = choose|c: ChangeView| c.wf() && c.path == p && c.kind == classify(old, new, p).unwrap();
        assert(change_set(old, new).contains(c));
        assert(tree_records(nodes).contains(c));
    }
}

/// No path is recorded twice: two records of the tree with the same path
/// are the same record, at the same place.
pub proof fn lemma_path_recorded_once(
    nodes: Seq<DirectoryNode>,
    old: Map<Seq<char>, Seq<u8>>,
    new: Map<Seq<char>, Seq<u8>>,
    i: int,
    a: int,
    j: int,
    b: int,
)
    requires
        describes_changes(nodes, old, new),
        0 <= i < nodes.len(),
        0 <= a < nodes[i].changes@.len(),
        0 <= j < nodes.len(),
        0 <= b < nodes[j].changes@.len(),
        nodes[i].changes@[a].path@ == nodes[j].changes@[b].path@,
    ensures
        i == j,
        a == b,
{
    let ci = nodes[i].changes@[a];
    let cj = nodes[j].changes@[b];
    assert(ci.wf() && cj.wf());
    assert(nodes[i].key() == nodes[j].key());
    lemma_lex_irreflexive(nodes[i].key());
    if i < j {
        assert(lex_lt(nodes[i].key(), nodes[j].key()));
    } else if j < i {
        assert(lex_lt(nodes[j].key(), nodes[i].key()));
    }
    assert(changes_sorted(nodes[i].changes@));
    lemma_lex_irreflexive(ci.path_bytes());
    if a < b {
        assert(lex_lt(nodes[i].changes@[a].path_bytes(), nodes[i].changes@[b].path_bytes()));
    } else if b < a {
        assert(lex_lt(nodes[i].changes@[b].path_bytes(), nodes[i].changes@[a].path_bytes()));
    }
}

/// Every directory above a record's directory, and that directory itself,
/// has a node of its own.
pub proof fn lemma_ancestors_present(
    nodes: Seq<DirectoryNode>,
    old: Map<Seq<char>, Seq<u8>>,
    new: Map<Seq<char>, Seq<u8>>,
    i: int,
    a: int,
    k: Seq<u8>,
)
    requires
        describes_changes(nodes, old, new),
        0 <= i < nodes.len(),
        0 <= a < nodes[i].changes@.len(),
        is_ancestor_key(k, dir_part(nodes[i].changes@[a].path_bytes())),
    ensures
        exists|j: int| 0 <= j < nodes.len() && (#[trigger] nodes[j]).key() == k,
{
    let c = nodes[i].changes@[a]@;
    assert(tree_records(nodes).contains(c));
    assert(needed_keys(change_set(old, new)).contains(k));
    assert(tree_keys(nodes).contains(k));
}

} // verus!
