//! Where the game keeps its asset manifest, below its install root.

use vstd::prelude::*;
use vstd::string::StringSliceAdditionalSpecFns;
use vstd::utf8::*;
use crate::manifest::string_from_utf8;

verus! {

broadcast use {encode_utf8_valid_utf8, decode_utf8_encode_utf8, valid_utf8_concat};

/// The byte of `\`, the separator that joins path components on Windows.
pub const BACKSLASH: u8 = 0x5c;

/// `/` and `\` both end a path component on Windows.
pub open spec fn is_separator(b: u8) -> bool {
    b == 0x2f || b == BACKSLASH
}

/// `b` is a bare drive prefix: an ASCII letter and `:`, as in `C:`.
pub open spec fn is_drive_only(b: Seq<u8>) -> bool {
    &&& b.len() == 2
    &&& ((0x41 <= b[0] && b[0] <= 0x5a) || (0x61 <= b[0] && b[0] <= 0x7a))
    &&& b[1] == 0x3a
}

/// `seg` appended to the path `base` as `Path::join` does on Windows for a
/// relative component: a `\` goes between them unless `base` is empty,
/// already ends with a separator, or is a bare drive prefix (`C:` joined with
/// `runtime` is `C:runtime`).
pub open spec fn join_bytes(base: Seq<u8>, seg: Seq<u8>) -> Seq<u8> {
    if base.len() == 0 || is_separator(base.last()) || is_drive_only(base) {
        base + seg
    } else {
        base.push(BACKSLASH) + seg
    }
}

/// The manifest's path below the install root: `runtime`, then `stalcraft.map`.
pub open spec fn map_path_bytes(root: Seq<u8>) -> Seq<u8> {
    join_bytes(join_bytes(root, encode_utf8("runtime"@)), encode_utf8("stalcraft.map"@))
}

fn push_bytes(v: &mut Vec<u8>, b: &[u8])
    ensures
        final(v)@ == old(v)@ + b@,
{
    let mut i: usize = 0;
    while i < b.len()
        invariant
            i <= b@.len(),
            v@ == old(v)@ + b@.subrange(0, i as int),
        decreases b@.len() - i,
    {
        v.push(b[i]);
        proof {
            assert(b@.subrange(0, i + 1) =~= b@.subrange(0, i as int).push(b@[i as int]));
        }
        i = i + 1;
    }
    proof {
        assert(b@.subrange(0, i as int) =~= b@);
    }
}

fn join_into(path: &mut Vec<u8>, seg: &str)
    ensures
        final(path)@ == join_bytes(old(path)@, seg.spec_bytes()),
{
    let n = path.len();
    let drive_only = n == 2 && ((0x41 <= path[0] && path[0] <= 0x5a) || (0x61 <= path[0]
        && path[0] <= 0x7a)) && path[1] == 0x3a;
    if n > 0 && path[n - 1] != 0x2f && path[n - 1] != BACKSLASH && !drive_only {
        path.push(BACKSLASH);
    }
    push_bytes(path, seg.as_bytes());
}

/// The path of the asset manifest of a game installed at `game_root`.
pub fn get_stalcraft_map_path(game_root: &str) -> (r: String)
    ensures
        encode_utf8(r@) == map_path_bytes(game_root.spec_bytes()),
{
    let mut path: Vec<u8> = Vec::new();
    push_bytes(&mut path, game_root.as_bytes());
    proof {
        assert(path@ =~= game_root.spec_bytes());
    }
    let ghost root = path@;
    join_into(&mut path, "runtime");
    let ghost mid = path@;
    proof {
        assert(valid_utf8(seq![BACKSLASH])) by {
            reveal_with_fuel(valid_utf8, 2);
            assert(pop_first_scalar(seq![BACKSLASH]) =~= Seq::<u8>::empty());
        }
        if !(root.len() == 0 || is_separator(root.last()) || is_drive_only(root)) {
            assert(valid_utf8(root + seq![BACKSLASH]));
            assert(root.push(BACKSLASH) =~= root + seq![BACKSLASH]);
        }
        assert(valid_utf8(mid));
    }
    join_into(&mut path, "stalcraft.map");
    proof {
        if !(mid.len() == 0 || is_separator(mid.last()) || is_drive_only(mid)) {
            assert(valid_utf8(mid + seq![BACKSLASH]));
            assert(mid.push(BACKSLASH) =~= mid + seq![BACKSLASH]);
        }
        assert(valid_utf8(path@));
    }
    let ghost bytes = path@;
    match string_from_utf8(path) {
        Some(s) => s,
        None => {
            proof {
                assert(false);
            }
            String::new()
        },
    }
}

} // verus!
