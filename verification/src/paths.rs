//! Relative paths as raw byte sequences: the `/`-separated component
//! structure and the directory-conflict relation that the index enforces.

use vstd::prelude::*;

verus! {

/// The path separator byte, `/`.
pub const SEPARATOR: u8 = 47;

/// Whether path `b` lies strictly below directory `a` (`b` begins with
/// `a` followed by a separator).
pub open spec fn in_dir(a: Seq<u8>, b: Seq<u8>) -> bool {
    a.len() < b.len() && b.take(a.len() as int) == a && b[a.len() as int] == 47
}

/// Whether two entry paths cannot coexist in the index: they are equal, or
/// one is a directory strictly containing the other.
pub open spec fn paths_conflict(a: Seq<u8>, b: Seq<u8>) -> bool {
    a == b || in_dir(a, b) || in_dir(b, a)
}

/// Decides whether `b` lies strictly below directory `a`.
pub fn in_dir_exec(a: &Vec<u8>, b: &Vec<u8>) -> (r: bool)
    ensures
        r == in_dir(a@, b@),
{
    if a.len() >= b.len() || b[a.len()] != SEPARATOR {
        proof {
            if a@.len() < b@.len() && b@.take(a@.len() as int) == a@ {
            }
        }
        return false;
    }
    let mut i: usize = 0;
    while i < a.len()
        invariant
            i <= a.len(),
            a@.len() < b@.len(),
            b@[a@.len() as int] == 47,
            b@.take(i as int) == a@.take(i as int),
        decreases a.len() - i,
    {
        if a[i] != b[i] {
            proof {
                assert(b@.take(a@.len() as int)[i as int] != a@[i as int]);
            }
            return false;
        }
        proof {
            assert(b@.take(i + 1) =~= a@.take(i + 1));
        }
        i = i + 1;
    }
    proof {
        assert(b@.take(a@.len() as int) =~= a@) by {
            assert(a@.take(a@.len() as int) =~= a@);
        }
    }
    true
}

/// Decides whether two entry paths conflict.
pub fn paths_conflict_exec(a: &Vec<u8>, b: &Vec<u8>) -> (r: bool)
    ensures
        r == paths_conflict(a@, b@),
{
    let eq = byte_vecs_equal(a, b);
    eq || in_dir_exec(a, b) || in_dir_exec(b, a)
}

/// Decides byte-for-byte equality of two paths.
pub fn byte_vecs_equal(a: &Vec<u8>, b: &Vec<u8>) -> (r: bool)
    ensures
        r == (a@ == b@),
{
    if a.len() != b.len() {
        return false;
    }
    let mut i: usize = 0;
    while i < a.len()
        invariant
            i <= a.len(),
            a@.len() == b@.len(),
            a@.take(i as int) == b@.take(i as int),
        decreases a.len() - i,
    {
        if a[i] != b[i] {
            proof {
                assert(a@.take(a@.len() as int) =~= a@);
                assert(b@.take(b@.len() as int) =~= b@);
                if a@ == b@ {
                    assert(a@.take(i + 1) =~= b@.take(i + 1));
                }
            }
            return false;
        }
        proof {
            assert(a@.take(i + 1) =~= b@.take(i + 1));
        }
        i = i + 1;
    }
    proof {
        assert(a@.take(a@.len() as int) =~= a@);
        assert(b@.take(b@.len() as int) =~= b@);
    }
    true
}

/// The offset of the first separator in `p`, or `p.len()` when there is
/// none.
pub open spec fn first_separator(p: Seq<u8>) -> nat
    decreases p.len(),
{
    if p.len() == 0 {
        0
    } else if p[0] == 47 {
        0
    } else {
        1 + first_separator(p.skip(1))
    }
}

pub proof fn lemma_first_separator(p: Seq<u8>)
    ensures
        first_separator(p) <= p.len(),
        forall|i: int| 0 <= i < first_separator(p) ==> p[i] != 47,
        first_separator(p) < p.len() ==> p[first_separator(p) as int] == 47,
    decreases p.len(),
{
    if p.len() > 0 && p[0] != 47 {
        lemma_first_separator(p.skip(1));
        assert forall|i: int| 0 <= i < first_separator(p) implies p[i] != 47 by {
            if i > 0 {
                assert(p[i] == p.skip(1)[i - 1]);
            }
        }
    }
}

/// The `/`-separated components of a path.
pub open spec fn split_path(p: Seq<u8>) -> Seq<Seq<u8>>
    decreases p.len(),
{
    let k = first_separator(p);
    if k >= p.len() {
        seq![p]
    } else {
        seq![p.take(k as int)] + split_path(p.skip(k + 1 as int))
    }
}

pub proof fn lemma_split_path_len(p: Seq<u8>)
    ensures
        split_path(p).len() >= 1,
    decreases p.len(),
{
    let k = first_separator(p);
    lemma_first_separator(p);
    if k != p.len() {
        lemma_split_path_len(p.skip(k + 1 as int));
    }
}

/// The final component of a path: everything after the last separator.
pub open spec fn basename_of(p: Seq<u8>) -> Seq<u8> {
    split_path(p).last()
}

/// The directory components of a path: everything before the last
/// separator, split at separators.  Empty for a top-level path.
pub open spec fn parent_components_of(p: Seq<u8>) -> Seq<Seq<u8>> {
    split_path(p).drop_last()
}

/// Splits a path at its separators.
pub fn split_components(p: &Vec<u8>) -> (r: Vec<Vec<u8>>)
    ensures
        r@.map_values(|c: Vec<u8>| c@) == split_path(p@),
        r@.len() >= 1,
{
    let mut out: Vec<Vec<u8>> = Vec::new();
    let mut current: Vec<u8> = Vec::new();
    let mut i: usize = 0;
    proof {
        lemma_split_path_len(p@);
        assert(current@ + p@.skip(0) =~= p@.skip(0));
        assert(p@.skip(0) =~= p@);
        assert(out@.map_values(|c: Vec<u8>| c@) + split_path(p@) =~= split_path(p@));
    }
    while i < p.len()
        invariant
            i <= p.len(),
            forall|j: int| 0 <= j < current@.len() ==> current@[j] != 47,
            current@.len() <= i,
            split_path(p@) == out@.map_values(|c: Vec<u8>| c@) + split_path(
                current@ + p@.skip(i as int),
            ),
            current@ + p@.skip(i as int) =~= p@.skip(i - current@.len()),
        decreases p.len() - i,
    {
        let ghost rest = current@ + p@.skip(i as int);
        let b = p[i];
        if b == SEPARATOR {
            proof {
                lemma_first_separator_concat(current@, p@.skip(i as int));
                assert(rest[current@.len() as int] == 47);
                assert(first_separator(rest) == current@.len());
                assert(rest.take(current@.len() as int) =~= current@);
                assert(rest.skip(current@.len() + 1 as int) =~= p@.skip(i + 1));
                assert(split_path(rest) == seq![current@] + split_path(p@.skip(i + 1)));
                assert((out@.map_values(|c: Vec<u8>| c@) + seq![current@])
                    =~= out@.push(current).map_values(|c: Vec<u8>| c@));
                assert((out@.map_values(|c: Vec<u8>| c@) + seq![current@]) + split_path(
                    p@.skip(i + 1),
                ) =~= out@.map_values(|c: Vec<u8>| c@) + (seq![current@] + split_path(
                    p@.skip(i + 1),
                )));
            }
            out.push(current);
            current = Vec::new();
            proof {
                assert(current@ + p@.skip(i + 1) =~= p@.skip(i + 1));
            }
        } else {
            current.push(b);
            proof {
                assert(current@ + p@.skip(i + 1) =~= rest);
            }
        }
        i = i + 1;
    }
    proof {
        let rest = current@ + p@.skip(i as int);
        assert(p@.skip(i as int) =~= Seq::<u8>::empty());
        assert(rest =~= current@);
        lemma_first_separator_concat(current@, Seq::<u8>::empty());
        assert(current@ + Seq::<u8>::empty() =~= current@);
        assert(first_separator(current@) == current@.len());
        assert(split_path(current@) == seq![current@]);
        assert((out@.map_values(|c: Vec<u8>| c@) + seq![current@])
            =~= out@.push(current).map_values(|c: Vec<u8>| c@));
    }
    out.push(current);
    out
}

/// In a concatenation whose first part is separator-free, the first
/// separator is the one the second part contributes.
proof fn lemma_first_separator_concat(a: Seq<u8>, b: Seq<u8>)
    requires
        forall|j: int| 0 <= j < a.len() ==> a[j] != 47,
    ensures
        first_separator(a + b) == if first_separator(b) == b.len() {
            (a + b).len()
        } else {
            a.len() + first_separator(b)
        },
    decreases a.len(),
{
    if a.len() == 0 {
        assert(a + b =~= b);
        lemma_first_separator_b_eq(b);
    } else {
        assert((a + b)[0] == a[0]);
        assert((a + b).skip(1) =~= a.skip(1) + b);
        lemma_first_separator_concat(a.skip(1), b);
    }
}

proof fn lemma_first_separator_b_eq(b: Seq<u8>)
    ensures
        first_separator(b) == b.len() || first_separator(b) < b.len(),
{
    lemma_first_separator(b);
}

} // verus!
