//! Bookkeeping of the tar engine that is worth proving: permission-bit
//! rendering and defaults, shard file names, and the reconciliation of
//! requested work against processed results.

use vstd::prelude::*;
use vstd::string::StringExecFns;
use crate::pipe::ArchiverError;
use crate::text::{spec_dec, u64_to_string};

verus! {

/// The permission character at position `i` of the nine-character
/// `rwxrwxrwx` rendering; position 0 is the owner's read bit.
pub open spec fn mode_char(bits: u32, i: int) -> char {
    let bit = 8 - i;
    let on = (bits / pow2u(bit)) % 2 == 1;
    if bit % 3 == 2 {
        if on {
            'r'
        } else {
            '-'
        }
    } else if bit % 3 == 1 {
        if on {
            'w'
        } else {
            '-'
        }
    } else {
        if on {
            'x'
        } else {
            '-'
        }
    }
}

/// Two to the given power, for the nine permission bits.
pub open spec fn pow2u(e: int) -> u32
    decreases e,
{
    if e <= 0 {
        1
    } else {
        (2 * pow2u(e - 1)) as u32
    }
}

/// The `rwxr-xr-x` rendering of a Unix permission mode; only the lowest
/// nine bits matter.
pub open spec fn spec_mode_string(mode: u32) -> Seq<char> {
    Seq::new(9, |i: int| mode_char(mode % 512, i))
}

fn pow2_exec(e: u32) -> (r: u32)
    requires
        e <= 8,
    ensures
        r == pow2u(e as int),
        r >= 1,
{
    proof {
        reveal_with_fuel(pow2u, 10);
    }
    if e == 0 {
        1
    } else if e == 1 {
        2
    } else if e == 2 {
        4
    } else if e == 3 {
        8
    } else if e == 4 {
        16
    } else if e == 5 {
        32
    } else if e == 6 {
        64
    } else if e == 7 {
        128
    } else {
        256
    }
}

/// Renders a Unix permission mode as `rwxr-xr-x`.
pub fn mode_to_string(mode: u32) -> (s: String)
    ensures
        s@ == spec_mode_string(mode),
{
    let bits = mode % 512;
    let mut s = String::new();
    let mut i: u32 = 0;
    proof {
        assert(s@ =~= Seq::<char>::empty());
    }
    while i < 9
        invariant
            i <= 9,
            s@.len() == i,
            forall|j: int| 0 <= j < i ==> s@[j] == mode_char(mode % 512, j),
            bits == mode % 512,
        decreases 9 - i,
    {
        let bit = 8 - i;
        let on = (bits / pow2_exec(bit)) % 2 == 1;
        let ch = if bit % 3 == 2 {
            if on {
                "r"
            } else {
                "-"
            }
        } else if bit % 3 == 1 {
            if on {
                "w"
            } else {
                "-"
            }
        } else {
            if on {
                "x"
            } else {
                "-"
            }
        };
        proof {
            reveal_strlit("r");
            reveal_strlit("w");
            reveal_strlit("x");
            reveal_strlit("-");
            assert(ch@.len() == 1);
            assert(ch@[0] == mode_char(mode % 512, i as int));
        }
        s.append(ch);
        i = i + 1;
    }
    proof {
        assert(s@ =~= spec_mode_string(mode));
    }
    s
}

/// The default permission mode when none can be read: directories need
/// execute to traverse, symlinks are conventionally wide open, and a
/// regular file keeps owner read/write.
pub fn default_mode_for_path(is_dir: bool, is_symlink: bool) -> (mode: u32)
    ensures
        is_dir ==> mode == 0o700,
        !is_dir && is_symlink ==> mode == 0o777,
        !is_dir && !is_symlink ==> mode == 0o600,
{
    if is_dir {
        0o700
    } else if is_symlink {
        0o777
    } else {
        0o600
    }
}

/// The shard file name `{archive_name}.{idx}.tar`, with `.gz` appended
/// when the shard is compressed.
pub fn shard_file_name(archive_name: &str, idx: u64, compress: bool) -> (s: String)
    ensures
        s@ == archive_name@ + "."@ + spec_dec(idx as nat) + (if compress {
            ".tar.gz"@
        } else {
            ".tar"@
        }),
{
    let mut s = String::from_str(archive_name);
    s.append(".");
    let digits = u64_to_string(idx);
    s.append(digits.as_str());
    if compress {
        s.append(".tar.gz");
    } else {
        s.append(".tar");
    }
    proof {
        assert(s@ =~= archive_name@ + "."@ + spec_dec(idx as nat) + (if compress {
            ".tar.gz"@
        } else {
            ".tar"@
        }));
    }
    s
}

/// The string views of a run of strings.
pub open spec fn str_views(s: Seq<String>) -> Seq<Seq<char>> {
    Seq::new(s.len(), |i: int| s[i]@)
}

/// Whether some processed result records a success for this path.
pub open spec fn covered(rs: Seq<Result<String, ArchiverError>>, w: Seq<char>) -> bool {
    exists|i: int|
        0 <= i < rs.len() && ((#[trigger] rs[i]) matches Ok(s) && s@ == w)
}

/// The requested items that no successful result covers, in request
/// order.
pub open spec fn spec_missing(
    ws: Seq<Seq<char>>,
    rs: Seq<Result<String, ArchiverError>>,
) -> Seq<Seq<char>>
    decreases ws.len(),
{
    if ws.len() == 0 {
        Seq::empty()
    } else {
        (if covered(rs, ws[0]) {
            Seq::empty()
        } else {
            seq![ws[0]]
        }) + spec_missing(ws.subrange(1, ws.len() as int), rs)
    }
}

pub proof fn lemma_missing_split(
    ws: Seq<Seq<char>>,
    rs: Seq<Result<String, ArchiverError>>,
    i: int,
)
    requires
        0 <= i <= ws.len(),
    ensures
        spec_missing(ws, rs) == spec_missing(ws.subrange(0, i), rs) + spec_missing(
            ws.subrange(i, ws.len() as int),
            rs,
        ),
    decreases i,
{
    if i == 0 {
        assert(ws.subrange(0, 0).len() == 0);
        assert(ws.subrange(0, ws.len() as int) =~= ws);
        assert(spec_missing(ws.subrange(0, 0), rs) + spec_missing(ws, rs) =~= spec_missing(
            ws,
            rs,
        ));
    } else {
        let rest = ws.subrange(1, ws.len() as int);
        lemma_missing_split(rest, rs, i - 1);
        assert(ws.subrange(0, i)[0] == ws[0]);
        assert(ws.subrange(0, i).subrange(1, i) =~= rest.subrange(0, i - 1));
        assert(ws.subrange(i, ws.len() as int) =~= rest.subrange(i - 1, rest.len() as int));
        assert(spec_missing(ws, rs) =~= spec_missing(ws.subrange(0, i), rs) + spec_missing(
            ws.subrange(i, ws.len() as int),
            rs,
        ));
    }
}

fn is_covered(rs: &Vec<Result<String, ArchiverError>>, w: &String) -> (r: bool)
    ensures
        r == covered(rs@, w@),
{
    let mut i: usize = 0;
    while i < rs.len()
        invariant
            i <= rs@.len(),
            forall|j: int|
                0 <= j < i ==> !((#[trigger] rs@[j]) matches Ok(s) && s@ == w@),
        decreases rs@.len() - i,
    {
        match &rs[i] {
            Ok(s) => {
                if *s == *w {
                    proof {
                        assert(rs@[i as int] matches Ok(t) && t@ == w@);
                    }
                    return true;
                }
            },
            Err(_) => {},
        }
        i = i + 1;
    }
    proof {
        assert(!covered(rs@, w@));
    }
    false
}

/// The requested work items that no successful result covers: each one
/// deserves a warning, and no processed item is ever reported.
pub fn missing_items(
    work_items: &Vec<String>,
    processed: &Vec<Result<String, ArchiverError>>,
) -> (missing: Vec<String>)
    ensures
        str_views(missing@) == spec_missing(str_views(work_items@), processed@),
{
    let ghost ws = str_views(work_items@);
    let mut missing: Vec<String> = Vec::new();
    let mut i: usize = 0;
    proof {
        assert(str_views(missing@) =~= spec_missing(ws.subrange(0, 0), processed@));
    }
    while i < work_items.len()
        invariant
            i <= work_items@.len(),
            ws == str_views(work_items@),
            ws.len() == work_items@.len(),
            str_views(missing@) == spec_missing(ws.subrange(0, i as int), processed@),
        decreases work_items@.len() - i,
    {
        let ghost pre = ws.subrange(0, i as int);
        let ghost pre1 = ws.subrange(0, i as int + 1);
        let ghost single = pre1.subrange(i as int, i as int + 1);
        proof {
            lemma_missing_split(pre1, processed@, i as int);
            assert(pre1.subrange(0, i as int) =~= pre);
            assert(single.len() == 1);
            assert(single[0] == ws[i as int]);
            assert(single.subrange(1, 1) =~= Seq::<Seq<char>>::empty());
            assert(spec_missing(single.subrange(1, 1), processed@) == Seq::<Seq<char>>::empty());
            assert(ws[i as int] == work_items@[i as int]@);
            assert(spec_missing(single, processed@) == (if covered(processed@, ws[i as int]) {
                Seq::<Seq<char>>::empty()
            } else {
                seq![ws[i as int]]
            }) + Seq::<Seq<char>>::empty());
        }
        let ghost m0 = str_views(missing@);
        if !is_covered(processed, &work_items[i]) {
            missing.push(work_items[i].clone());
            proof {
                assert(str_views(missing@) =~= m0 + seq![ws[i as int]]);
                assert(spec_missing(single, processed@) =~= seq![ws[i as int]]);
            }
        } else {
            proof {
                assert(str_views(missing@) =~= m0);
                assert(spec_missing(single, processed@) =~= Seq::<Seq<char>>::empty());
                assert(m0 + Seq::<Seq<char>>::empty() =~= m0);
            }
        }
        proof {
            assert(str_views(missing@) =~= spec_missing(pre1, processed@));
        }
        i = i + 1;
    }
    proof {
        assert(ws.subrange(0, i as int) =~= ws);
    }
    missing
}

/// No false warning: an item the results cover is never reported
/// missing, and every uncovered request is reported, in order.
pub proof fn lemma_reconciliation_exact(
    ws: Seq<Seq<char>>,
    rs: Seq<Result<String, ArchiverError>>,
)
    ensures
        forall|w: Seq<char>| covered(rs, w) ==> !spec_missing(ws, rs).contains(w),
        forall|i: int|
            0 <= i < ws.len() && !covered(rs, #[trigger] ws[i]) ==> spec_missing(
                ws,
                rs,
            ).contains(ws[i]),
    decreases ws.len(),
{
    if ws.len() > 0 {
        let rest = ws.subrange(1, ws.len() as int);
        lemma_reconciliation_exact(rest, rs);
        assert forall|w: Seq<char>| covered(rs, w) implies !spec_missing(ws, rs).contains(w) by {
            if spec_missing(ws, rs).contains(w) {
                let k = choose|k: int|
                    0 <= k < spec_missing(ws, rs).len() && spec_missing(ws, rs)[k] == w;
                if !covered(rs, ws[0]) {
                    if k == 0 {
                        assert(w == ws[0]);
                    } else {
                        assert(spec_missing(rest, rs).contains(w)) by {
                            assert(spec_missing(rest, rs)[k - 1] == w);
                        }
                    }
                } else {
                    assert(spec_missing(rest, rs).contains(w)) by {
                        assert(spec_missing(rest, rs)[k] == w);
                    }
                }
            }
        }
        assert forall|i: int|
            0 <= i < ws.len() && !covered(rs, #[trigger] ws[i]) implies spec_missing(
            ws,
            rs,
        ).contains(ws[i]) by {
            if i == 0 {
                assert(spec_missing(ws, rs)[0] == ws[0]);
            } else {
                assert(rest[i - 1] == ws[i]);
                assert(spec_missing(rest, rs).contains(ws[i]));
                let k = choose|k: int|
                    0 <= k < spec_missing(rest, rs).len() && spec_missing(rest, rs)[k] == ws[i];
                let off = if covered(rs, ws[0]) {
                    0int
                } else {
                    1int
                };
                assert(spec_missing(ws, rs)[k + off] == ws[i]);
            }
        }
    }
}

} // verus!
