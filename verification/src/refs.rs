//! The `HEAD` reference: read back trimmed, rewritten atomically under a
//! lockfile.

use vstd::prelude::*;

use crate::lockfile::{LockAttempt, Lockfile};
use vstd::slice::{slice_subrange, slice_to_vec};

verus! {

/// ASCII whitespace, as trimmed from the stored reference.
pub open spec fn is_space(b: u8) -> bool {
    b == 32 || (9 <= b <= 13)
}

/// `s` without trailing whitespace.
pub open spec fn trim_end_ws(s: Seq<u8>) -> Seq<u8>
    decreases s.len(),
{
    if s.len() > 0 && is_space(s.last()) {
        trim_end_ws(s.drop_last())
    } else {
        s
    }
}

/// `s` without leading whitespace.
pub open spec fn trim_start_ws(s: Seq<u8>) -> Seq<u8>
    decreases s.len(),
{
    if s.len() > 0 && is_space(s[0]) {
        trim_start_ws(s.skip(1))
    } else {
        s
    }
}

/// `s` without surrounding whitespace.
pub open spec fn trim_ws(s: Seq<u8>) -> Seq<u8> {
    trim_start_ws(trim_end_ws(s))
}

/// Trimming never lengthens a sequence.
pub proof fn lemma_trim_end_ws_len(s: Seq<u8>)
    ensures
        trim_end_ws(s).len() <= s.len(),
    decreases s.len(),
{
    if s.len() > 0 && is_space(s.last()) {
        lemma_trim_end_ws_len(s.drop_last());
    }
}

/// Decides `is_space`.
fn is_space_exec(b: u8) -> (r: bool)
    ensures
        r == is_space(b),
{
    b == 32 || (9 <= b && b <= 13)
}

/// The `HEAD` lockfile could not be acquired.
#[derive(Clone, Copy, PartialEq, Eq, Structural, Debug)]
pub struct LockDenied;

/// The references of one repository directory.
pub struct Refs {
    pathname: Vec<u8>,
}

impl Refs {
    /// The repository directory the references live in.
    pub closed spec fn pathname_spec(&self) -> Seq<u8> {
        self.pathname@
    }

    /// The path of the `HEAD` file.
    pub open spec fn head_path_spec(&self) -> Seq<u8> {
        self.pathname_spec() + seq![47u8, 72u8, 69u8, 65u8, 68u8]
    }

    /// References rooted at `pathname`.
    pub fn new(pathname: Vec<u8>) -> (r: Refs)
        ensures
            r.pathname_spec() == pathname@,
    {
        Refs { pathname }
    }

    /// The path of the `HEAD` file.
    fn head_path(&self) -> (r: Vec<u8>)
        ensures
            r@ == self.head_path_spec(),
    {
        let mut p = self.pathname.clone();
        p.push(47);
        p.push(72);
        p.push(69);
        p.push(65);
        p.push(68);
        proof {
            assert(p@ =~= self.head_path_spec());
        }
        p
    }

    /// Points `HEAD` at `oid`: under the `HEAD` lockfile, writes the name
    /// followed by a newline and commits.  The returned bytes are what the
    /// driver publishes to the `HEAD` file.  Any acquisition failure
    /// surfaces as `LockDenied`.
    pub fn update_head(&self, oid: &Vec<u8>, attempt: LockAttempt) -> (r: Result<
        Vec<u8>,
        LockDenied,
    >)
        ensures
            attempt == LockAttempt::Created ==> (r matches Ok(c) && c@ == oid@ + seq![10u8]),
            attempt != LockAttempt::Created ==> r == Err::<Vec<u8>, LockDenied>(LockDenied),
    {
        let mut lockfile = Lockfile::new(self.head_path());
        let acquired = match lockfile.hold_for_update(attempt) {
            Ok(b) => b,
            Err(_e) => false,
        };
        if !acquired {
            return Err(LockDenied);
        }
        let newline: Vec<u8> = {
            let mut v: Vec<u8> = Vec::new();
            v.push(10);
            v
        };
        let r1 = lockfile.write(oid);
        let r2 = lockfile.write(&newline);
        match (r1, r2) {
            (Ok(_a), Ok(_b)) => {},
            _ => {
                return Err(LockDenied);
            },
        }
        match lockfile.commit() {
            Ok(content) => {
                proof {
                    assert(content@ =~= oid@ + seq![10u8]);
                }
                Ok(content)
            },
            Err(_e) => Err(LockDenied),
        }
    }

    /// The current `HEAD`, trimmed of surrounding whitespace; `data` is
    /// what the driver read from the `HEAD` file, `None` when absent.
    pub fn read_head(&self, data: Option<&Vec<u8>>) -> (r: Option<Vec<u8>>)
        ensures
            match data {
                None => r is None,
                Some(bytes) => r matches Some(v) && v@ == trim_ws(bytes@),
            },
    {
        let bytes = match data {
            None => {
                return None;
            },
            Some(b) => b,
        };
        let n = bytes.len();
        let mut start: usize = 0;
        let mut end: usize = n;
        proof {
            assert(bytes@.subrange(0, n as int) =~= bytes@);
        }
        while end > start && is_space_exec(bytes[end - 1])
            invariant
                0 <= start <= end <= n,
                n == bytes@.len(),
                start == 0,
                trim_ws(bytes@) == trim_ws(bytes@.subrange(0, end as int)),
            decreases end,
        {
            proof {
                let s = bytes@.subrange(0, end as int);
                assert(s.last() == bytes@[end - 1]);
                assert(s.drop_last() =~= bytes@.subrange(0, end - 1));
            }
            end = end - 1;
        }
        proof {
            let s = bytes@.subrange(0, end as int);
            assert(trim_end_ws(s) == s);
        }
        while start < end && is_space_exec(bytes[start])
            invariant
                0 <= start <= end <= n,
                n == bytes@.len(),
                trim_end_ws(bytes@.subrange(0, end as int)) == bytes@.subrange(0, end as int),
                trim_ws(bytes@) == trim_ws(bytes@.subrange(start as int, end as int)),
                trim_end_ws(bytes@.subrange(start as int, end as int)) == bytes@.subrange(
                    start as int,
                    end as int,
                ),
            decreases end - start,
        {
            proof {
                let s = bytes@.subrange(start as int, end as int);
                let t = bytes@.subrange(start + 1, end as int);
                assert(s[0] == bytes@[start as int]);
                assert(s.skip(1) =~= t);
                if t.len() > 0 && is_space(t.last()) {
                    assert(s.last() == t.last());
                    lemma_trim_end_ws_len(s.drop_last());
                }
            }
            start = start + 1;
        }
        let r = slice_to_vec(slice_subrange(bytes.as_slice(), start, end));
        proof {
            let s = bytes@.subrange(start as int, end as int);
            assert(trim_ws(s) == s);
            assert(r@ =~= s);
        }
        Some(r)
    }
}

} // verus!
