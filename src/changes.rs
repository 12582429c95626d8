//! Classifying the paths of two manifest snapshots as added, modified or
//! deleted.

use vstd::prelude::*;
use vstd::hash_map::StringHashMap;
use vstd::string::StringSliceAdditionalSpecFns;
use vstd::utf8::*;
use crate::manifest::MapEntry;
use crate::order::compare_bytes;

verus! {

broadcast use {encode_utf8_valid_utf8, is_char_boundary_iff_not_is_continuation_byte};

/// The byte of `/`, the separator of path components.
pub const SLASH: u8 = 0x2f;

/// How a path changed between two snapshots.
#[derive(Debug, Clone, Copy, PartialEq, Eq, Structural)]
pub enum ChangeKind {
    Added,
    Modified,
    Deleted,
}

/// The position of the last `/` in `b`, or -1 when there is none.
pub open spec fn last_slash(b: Seq<u8>) -> int
    decreases b.len(),
{
    if b.len() == 0 {
        -1
    } else if b.last() == SLASH {
        b.len() - 1
    } else {
        last_slash(b.drop_last())
    }
}

/// The directory of a path: what stands before its last `/`, empty when it
/// has none.
pub open spec fn dir_part(b: Seq<u8>) -> Seq<u8> {
    if last_slash(b) < 0 {
        seq![]
    } else {
        b.subrange(0, last_slash(b))
    }
}

/// The file name of a path: what stands after its last `/`.
pub open spec fn name_part(b: Seq<u8>) -> Seq<u8> {
    b.subrange(last_slash(b) + 1, b.len() as int)
}

/// `last_slash` is -1 or the position of a `/`, with none after it.
pub proof fn lemma_last_slash(b: Seq<u8>)
    ensures
        -1 <= last_slash(b) < b.len(),
        last_slash(b) >= 0 ==> b[last_slash(b)] == SLASH,
        forall|j: int| last_slash(b) < j < b.len() ==> b[j] != SLASH,
    decreases b.len(),
{
    if b.len() > 0 && b.last() != SLASH {
        lemma_last_slash(b.drop_last());
        assert forall|j: int| last_slash(b) < j < b.len() implies b[j] != SLASH by {
            if j < b.len() - 1 {
                assert(b.drop_last()[j] == b[j]);
            }
        }
    }
}

/// One changed path, split into its directory and file name.
#[derive(Debug, Clone, PartialEq, Eq)]
pub struct ChangeRecord {
    pub path: String,
    pub directory: String,
    pub filename: String,
    pub kind: ChangeKind,
}

/// What a [`ChangeRecord`] holds, as characters.
pub struct ChangeView {
    pub path: Seq<char>,
    pub directory: Seq<char>,
    pub filename: Seq<char>,
    pub kind: ChangeKind,
}

impl ChangeView {
    /// The UTF-8 encoding of the path.
    pub open spec fn path_bytes(self) -> Seq<u8> {
        encode_utf8(self.path)
    }

    /// The directory and file name are those of the path.
    pub open spec fn wf(self) -> bool {
        &&& encode_utf8(self.directory) == dir_part(self.path_bytes())
        &&& encode_utf8(self.filename) == name_part(self.path_bytes())
    }
}

impl View for ChangeRecord {
    type V = ChangeView;

    open spec fn view(&self) -> ChangeView {
        ChangeView {
            path: self.path@,
            directory: self.directory@,
            filename: self.filename@,
            kind: self.kind,
        }
    }
}

/// Different character strings have different UTF-8 encodings.
pub proof fn lemma_utf8_injective(a: Seq<char>, b: Seq<char>)
    requires
        encode_utf8(a) == encode_utf8(b),
    ensures
        a == b,
{
    encode_utf8_decode_utf8(a);
    encode_utf8_decode_utf8(b);
}

/// A well-formed record is determined by its path and kind.
pub proof fn lemma_record_determined(a: ChangeView, b: ChangeView)
    requires
        a.wf(),
        b.wf(),
        a.path == b.path,
        a.kind == b.kind,
    ensures
        a == b,
{
    lemma_utf8_injective(a.directory, b.directory);
    lemma_utf8_injective(a.filename, b.filename);
}

/// Every path has a well-formed record of each kind: its directory and file
/// name, cut at a `/`, are themselves valid UTF-8.
pub proof fn lemma_record_exists(p: Seq<char>, kind: ChangeKind)
    ensures
        exists|c: ChangeView| c.wf() && c.path == p && c.kind == kind,
{
    let b = encode_utf8(p);
    lemma_last_slash(b);
    let ls = last_slash(b);
    if ls < 0 {
        assert(dir_part(b) =~= encode_utf8(Seq::<char>::empty()));
        assert(name_part(b) =~= b);
        let c = ChangeView { path: p, directory: Seq::empty(), filename: p, kind };
        assert(c.wf());
    } else {
        assert(!is_continuation_byte(b[ls]));
        assert(is_char_boundary(b, ls));
        valid_utf8_split(b, ls);
        let rest = b.subrange(ls, b.len() as int);
        assert(rest[0] == SLASH);
        assert(is_char_boundary(rest, 1)) by {
            reveal_with_fuel(is_char_boundary, 2);
        }
        valid_utf8_split(rest, 1);
        assert(rest.subrange(1, rest.len() as int) =~= name_part(b));
        decode_utf8_encode_utf8(dir_part(b));
        decode_utf8_encode_utf8(name_part(b));
        let c = ChangeView {
            path: p,
            directory: decode_utf8(dir_part(b)),
            filename: decode_utf8(name_part(b)),
            kind,
        };
        assert(c.wf());
    }
}

impl ChangeRecord {
    /// The UTF-8 encoding of the path.
    pub open spec fn path_bytes(self) -> Seq<u8> {
        self@.path_bytes()
    }

    /// The directory and file name are those of the path.
    pub open spec fn wf(self) -> bool {
        self@.wf()
    }

    /// The record of `path` changing by `kind`.
    pub fn new(path: &String, kind: ChangeKind) -> (r: ChangeRecord)
        ensures
            r.path@ == path@,
            r.kind == kind,
            r.wf(),
    {
        let s = path.as_str();
        let b = s.as_bytes();
        proof {
            lemma_last_slash(b@);
        }
        match last_slash_index(b) {
            None => {
                proof {
                    assert(b@.subrange(0, b@.len() as int) =~= b@);
                    assert(encode_utf8(Seq::<char>::empty()) =~= Seq::<u8>::empty());
                }
                ChangeRecord {
                    path: path.clone(),
                    directory: String::new(),
                    filename: path.clone(),
                    kind,
                }
            },
            Some(i) => {
                proof {
                    assert(!is_continuation_byte(b@[i as int]));
                }
                let (dir, rest) = s.split_at(i);
                proof {
                    let rb = rest.spec_bytes();
                    valid_utf8_split(b@, i as int);
                    assert(rb[0] == SLASH);
                    assert(is_char_boundary(rb, 1)) by {
                        reveal_with_fuel(is_char_boundary, 2);
                    }
                }
                let (_slash, name) = rest.split_at(1);
                proof {
                    assert(name.spec_bytes() =~= b@.subrange(i + 1, b@.len() as int));
                }
                ChangeRecord {
                    path: path.clone(),
                    directory: dir.to_owned(),
                    filename: name.to_owned(),
                    kind,
                }
            },
        }
    }

    /// A copy of the record.
    pub fn duplicate(&self) -> (r: ChangeRecord)
        ensures
            r == *self,
    {
        ChangeRecord {
            path: self.path.clone(),
            directory: self.directory.clone(),
            filename: self.filename.clone(),
            kind: self.kind,
        }
    }
}

/// The position of the last `/` in `b`.
fn last_slash_index(b: &[u8]) -> (r: Option<usize>)
    ensures
        match r {
            Some(i) => i == last_slash(b@),
            None => last_slash(b@) == -1,
        },
{
    let mut i: usize = b.len();
    proof {
        assert(b@.subrange(0, i as int) =~= b@);
    }
    while i > 0
        invariant
            i <= b@.len(),
            last_slash(b@) == last_slash(b@.subrange(0, i as int)),
        decreases i,
    {
        if b[i - 1] == SLASH {
            return Some(i - 1);
        }
        proof {
            assert(b@.subrange(0, i as int).drop_last() =~= b@.subrange(0, i - 1));
        }
        i = i - 1;
    }
    None
}

/// The digest of each path of a manifest; where a path is listed more than
/// once, its last listing wins.
pub open spec fn digest_table(entries: Seq<MapEntry>) -> Map<Seq<char>, Seq<u8>>
    decreases entries.len(),
{
    if entries.len() == 0 {
        Map::empty()
    } else {
        digest_table(entries.drop_last()).insert(entries.last().path@, entries.last().hash@)
    }
}

/// The position of the last listing of each path of a manifest.
pub open spec fn last_index_table(entries: Seq<MapEntry>) -> Map<Seq<char>, usize>
    decreases entries.len(),
{
    if entries.len() == 0 {
        Map::empty()
    } else {
        last_index_table(entries.drop_last()).insert(
            entries.last().path@,
            (entries.len() - 1) as usize,
        )
    }
}

/// Path `p` is in `last_index_table` where it is in `digest_table`, and its
/// last listing there holds the digest that `digest_table` gives it.
pub proof fn lemma_last_listing(entries: Seq<MapEntry>, p: Seq<char>)
    requires
        entries.len() <= usize::MAX,
    ensures
        last_index_table(entries).contains_key(p) <==> digest_table(entries).contains_key(p),
        last_index_table(entries).contains_key(p) ==> {
            let k = last_index_table(entries)[p] as int;
            &&& 0 <= k < entries.len()
            &&& entries[k].path@ == p
            &&& entries[k].hash@ == digest_table(entries)[p]
        },
    decreases entries.len(),
{
    if entries.len() > 0 {
        let init = entries.drop_last();
        lemma_last_listing(init, p);
        if p != entries.last().path@ && last_index_table(init).contains_key(p) {
            assert(init[last_index_table(init)[p] as int] == entries[last_index_table(init)[p] as int]);
        }
    }
}

/// Every listed path is in `last_index_table`.
pub proof fn lemma_listed_path(entries: Seq<MapEntry>, j: int)
    requires
        0 <= j < entries.len(),
    ensures
        last_index_table(entries).contains_key(entries[j].path@),
    decreases entries.len(),
{
    if j < entries.len() - 1 {
        let init = entries.drop_last();
        lemma_listed_path(init, j);
        assert(init[j] == entries[j]);
    }
}

/// How path `p` changed from the snapshot `old` to the snapshot `new`, or
/// `None` where it did not change or is in neither.
pub open spec fn classify(
    old: Map<Seq<char>, Seq<u8>>,
    new: Map<Seq<char>, Seq<u8>>,
    p: Seq<char>,
) -> Option<ChangeKind> {
    if new.contains_key(p) {
        if !old.contains_key(p) {
            Some(ChangeKind::Added)
        } else if old[p] != new[p] {
            Some(ChangeKind::Modified)
        } else {
            None
        }
    } else if old.contains_key(p) {
        Some(ChangeKind::Deleted)
    } else {
        None
    }
}

/// `rs` holds one well-formed record for each changed path, with its kind,
/// and nothing else.
pub open spec fn lists_changes(
    rs: Seq<ChangeRecord>,
    old: Map<Seq<char>, Seq<u8>>,
    new: Map<Seq<char>, Seq<u8>>,
) -> bool {
    &&& forall|i: int|
        0 <= i < rs.len() ==> (#[trigger] rs[i]).wf() && classify(old, new, rs[i].path@) == Some(
            rs[i].kind,
        )
    &&& forall|i: int, j: int|
        0 <= i < rs.len() && 0 <= j < rs.len() && i != j ==> (#[trigger] rs[i]).path@ != (
        #[trigger] rs[j]).path@
    &&& forall|p: Seq<char>| #[trigger]
        classify(old, new, p) is Some ==> exists|i: int| 0 <= i < rs.len() && (#[trigger] rs[i]).path@ == p
}

/// The position of the last listing of each path of `entries`.
fn index_paths(entries: &Vec<MapEntry>) -> (m: StringHashMap<usize>)
    ensures
        m@ == last_index_table(entries@),
{
    let mut m: StringHashMap<usize> = StringHashMap::new();
    let mut i: usize = 0;
    proof {
        assert(entries@.subrange(0, 0) =~= Seq::<MapEntry>::empty());
    }
    while i < entries.len()
        invariant
            i <= entries@.len(),
            m@ == last_index_table(entries@.subrange(0, i as int)),
        decreases entries@.len() - i,
    {
        m.insert(entries[i].path.clone(), i);
        proof {
            let s = entries@.subrange(0, i + 1);
            assert(s.drop_last() =~= entries@.subrange(0, i as int));
            assert(s.last() == entries@[i as int]);
        }
        i = i + 1;
    }
    proof {
        assert(entries@.subrange(0, i as int) =~= entries@);
    }
    m
}

/// The changes from `old` to `new`: a record for each path listed in `new`
/// but not in `old` (added), listed in both with different digests
/// (modified), or listed in `old` only (deleted). Unchanged paths get no
/// record. Paths are looked up with the last listing winning.
///
/// Records come in the order of discovery: the changes of `new`'s paths in
/// the order of their last listing there, then the deletions in the order of
/// their last listing in `old`.
pub fn change_records(old: &Vec<MapEntry>, new: &Vec<MapEntry>) -> (r: Vec<ChangeRecord>)
    ensures
        lists_changes(r@, digest_table(old@), digest_table(new@)),
{
    let old_idx = index_paths(old);
    let new_idx = index_paths(new);
    let ghost ot = digest_table(old@);
    let ghost nt = digest_table(new@);
    let ghost oi = last_index_table(old@);
    let ghost ni = last_index_table(new@);
    let mut out: Vec<ChangeRecord> = Vec::new();
    assert(old@.len() == old.len() && new@.len() == new.len());
    let ghost mut pos: Map<Seq<char>, int> = Map::empty();
    let mut j: usize = 0;
    while j < new.len()
        invariant
            j <= new@.len(),
            new@.len() <= usize::MAX,
            old@.len() <= usize::MAX,
            old_idx@ == oi,
            new_idx@ == ni,
            ot == digest_table(old@),
            nt == digest_table(new@),
            oi == last_index_table(old@),
            ni == last_index_table(new@),
            forall|i: int|
                0 <= i < out@.len() ==> {
                    &&& (#[trigger] out@[i]).wf()
                    &&& classify(ot, nt, out@[i].path@) == Some(out@[i].kind)
                    &&& pos.contains_key(out@[i].path@)
                    &&& pos[out@[i].path@] == i
                },
            forall|p: Seq<char>|
                #[trigger] pos.contains_key(p) ==> {
                    &&& 0 <= pos[p] < out@.len()
                    &&& out@[pos[p]].path@ == p
                    &&& ni.contains_key(p)
                    &&& ni[p] < j
                },
            forall|p: Seq<char>|
                #[trigger] classify(ot, nt, p) is Some && ni.contains_key(p) && ni[p] < j
                    ==> pos.contains_key(p),
        decreases new@.len() - j,
    {
        let e = &new[j];
        let ghost p = e.path@;
        proof {
            lemma_listed_path(new@, j as int);
            lemma_last_listing(new@, p);
            lemma_last_listing(old@, p);
        }
        if let Some(k) = new_idx.get(e.path.as_str()) {
            if *k == j {
                let kind = match old_idx.get(e.path.as_str()) {
                    None => Some(ChangeKind::Added),
                    Some(m) => {
                        if compare_bytes(old[*m].hash.as_slice(), e.hash.as_slice()) != 0 {
                            Some(ChangeKind::Modified)
                        } else {
                            None
                        }
                    },
                };
                assert(kind == classify(ot, nt, p));
                if let Some(kind) = kind {
                    let rec = ChangeRecord::new(&e.path, kind);
                    proof {
                        pos = pos.insert(p, out@.len() as int);
                    }
                    out.push(rec);
                }
            }
        }
        proof {
            assert forall|q: Seq<char>|
                #[trigger] classify(ot, nt, q) is Some && ni.contains_key(q) && ni[q] < j + 1
                    implies pos.contains_key(q) by {
                lemma_last_listing(new@, q);
            }
        }
        j = j + 1;
    }
    proof {
        assert forall|p: Seq<char>|
            #[trigger] classify(ot, nt, p) is Some && ni.contains_key(p) implies pos.contains_key(p) by {
            lemma_last_listing(new@, p);
        }
    }
    let mut j: usize = 0;
    while j < old.len()
        invariant
            j <= old@.len(),
            new@.len() <= usize::MAX,
            old@.len() <= usize::MAX,
            old_idx@ == oi,
            new_idx@ == ni,
            ot == digest_table(old@),
            nt == digest_table(new@),
            oi == last_index_table(old@),
            ni == last_index_table(new@),
            forall|i: int|
                0 <= i < out@.len() ==> {
                    &&& (#[trigger] out@[i]).wf()
                    &&& classify(ot, nt, out@[i].path@) == Some(out@[i].kind)
                    &&& pos.contains_key(out@[i].path@)
                    &&& pos[out@[i].path@] == i
                },
            forall|p: Seq<char>|
                #[trigger] pos.contains_key(p) ==> {
                    &&& 0 <= pos[p] < out@.len()
                    &&& out@[pos[p]].path@ == p
                    &&& (ni.contains_key(p) || (oi.contains_key(p) && oi[p] < j))
                },
            forall|p: Seq<char>|
                #[trigger] classify(ot, nt, p) is Some && ni.contains_key(p) ==> pos.contains_key(p),
            forall|p: Seq<char>|
                #[trigger] classify(ot, nt, p) is Some && !ni.contains_key(p) && oi.contains_key(p)
                    && oi[p] < j ==> pos.contains_key(p),
        decreases old@.len() - j,
    {
        let e = &old[j];
        let ghost p = e.path@;
        proof {
            lemma_listed_path(old@, j as int);
            lemma_last_listing(new@, p);
            lemma_last_listing(old@, p);
        }
        if let Some(k) = old_idx.get(e.path.as_str()) {
            if *k == j && !new_idx.contains_key(e.path.as_str()) {
                let rec = ChangeRecord::new(&e.path, ChangeKind::Deleted);
                proof {
                    pos = pos.insert(p, out@.len() as int);
                }
                out.push(rec);
            }
        }
        proof {
            assert forall|q: Seq<char>|
                #[trigger] classify(ot, nt, q) is Some && !ni.contains_key(q) && oi.contains_key(q)
                    && oi[q] < j + 1 implies pos.contains_key(q) by {
                lemma_last_listing(old@, q);
            }
        }
        j = j + 1;
    }
    proof {
        assert forall|p: Seq<char>| #[trigger] classify(ot, nt, p) is Some implies exists|i: int|
            0 <= i < out@.len() && (#[trigger] out@[i]).path@ == p by {
            lemma_last_listing(new@, p);
            lemma_last_listing(old@, p);
            assert(out@[pos[p]].path@ == p);
        }
        assert forall|a: int, b: int|
            0 <= a < out@.len() && 0 <= b < out@.len() && a != b implies (#[trigger] out@[a]).path@
            != (#[trigger] out@[b]).path@ by {
            assert(pos[out@[a].path@] == a);
            assert(pos[out@[b].path@] == b);
        }
    }
    out
}

} // verus!
