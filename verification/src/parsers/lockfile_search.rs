//! Where a manifest's lockfile is looked for.
//!
//! A search starts in the manifest's directory and moves up one directory
//! at a time; in each directory the candidate file names are checked in
//! order, and the first that exists is the lockfile. The search stops after
//! a fixed number of directories (or at the file system's root). Checking
//! whether a file exists, and moving to a parent directory, are left to the
//! caller: [`LockfileSearch`] says what to do next and is told what was
//! found.

use vstd::prelude::*;
use crate::parsers::npm_lock::NpmLockfileType;
use crate::parsers::python_lock::PythonLockfileType;

verus! {

/// How many directories a search for a lockfile looks at.
pub const MAX_SEARCH_DEPTH: usize = 10;

/// What the caller of a search does next.
#[derive(Debug, Clone, Copy, PartialEq, Eq, Structural)]
pub enum SearchAction {
    /// Check whether the candidate with this index exists in the current
    /// directory.
    Check(usize),
    /// Move to the parent directory (the search ends if there is none).
    Ascend,
    /// Stop: no lockfile was found.
    GiveUp,
}

/// A search for a lockfile among `candidates` names, over at most
/// `max_depth` directories (no limit when `None`).
pub struct LockfileSearch {
    candidates: usize,
    max_depth: Option<usize>,
    depth: usize,
    next: usize,
}

impl LockfileSearch {
    /// Number of candidate names checked in each directory.
    pub closed spec fn spec_candidates(&self) -> int {
        self.candidates as int
    }

    /// Directories looked at so far, minus one.
    pub closed spec fn spec_depth(&self) -> int {
        self.depth as int
    }

    /// The next candidate to check in the current directory.
    pub closed spec fn spec_next(&self) -> int {
        self.next as int
    }

    pub closed spec fn spec_max_depth(&self) -> Option<usize> {
        self.max_depth
    }

    /// The search's invariant.
    pub closed spec fn wf(&self) -> bool {
        &&& self.next <= self.candidates
        &&& match self.max_depth {
            Some(m) => self.depth < m,
            None => true,
        }
    }

    /// A search in the manifest's directory, before any check.
    pub fn new(candidates: usize, max_depth: Option<usize>) -> (r: Self)
        requires
            match max_depth {
                Some(m) => m > 0,
                None => true,
            },
        ensures
            r.wf(),
            r.spec_candidates() == candidates,
            r.spec_max_depth() == max_depth,
            r.spec_depth() == 0,
            r.spec_next() == 0,
    {
        LockfileSearch { candidates, max_depth, depth: 0, next: 0 }
    }

    /// What to do next: check the next candidate of this directory; once
    /// all are checked, move up unless the directory limit is reached.
    pub fn action(&self) -> (r: SearchAction)
        requires
            self.wf(),
        ensures
            self.spec_next() < self.spec_candidates() ==> r == SearchAction::Check(
                self.spec_next() as usize,
            ),
            self.spec_next() == self.spec_candidates() ==> r == (match self.spec_max_depth() {
                Some(m) => if self.spec_depth() + 1 >= m {
                    SearchAction::GiveUp
                } else {
                    SearchAction::Ascend
                },
                None => SearchAction::Ascend,
            }),
    {
        if self.next < self.candidates {
            SearchAction::Check(self.next)
        } else {
            match self.max_depth {
                Some(m) => if self.depth + 1 >= m {
                    SearchAction::GiveUp
                } else {
                    SearchAction::Ascend
                },
                None => SearchAction::Ascend,
            }
        }
    }

    /// The checked candidate does not exist: the next one is due.
    pub fn missed(&mut self)
        requires
            old(self).wf(),
            old(self).spec_next() < old(self).spec_candidates(),
        ensures
            final(self).wf(),
            final(self).spec_next() == old(self).spec_next() + 1,
            final(self).spec_depth() == old(self).spec_depth(),
            final(self).spec_candidates() == old(self).spec_candidates(),
            final(self).spec_max_depth() == old(self).spec_max_depth(),
    {
        self.next = self.next + 1;
    }

    /// The search moved to the parent directory: its candidates are due.
    pub fn ascended(&mut self)
        requires
            old(self).wf(),
            old(self).spec_next() == old(self).spec_candidates(),
            old(self).spec_depth() < usize::MAX - 1,
            match old(self).spec_max_depth() {
                Some(m) => old(self).spec_depth() + 1 < m,
                None => true,
            },
        ensures
            final(self).wf(),
            final(self).spec_next() == 0,
            final(self).spec_depth() == old(self).spec_depth() + 1,
            final(self).spec_candidates() == old(self).spec_candidates(),
            final(self).spec_max_depth() == old(self).spec_max_depth(),
    {
        self.depth = self.depth + 1;
        self.next = 0;
    }
}

/// The Python lockfiles in the order they are checked in each directory:
/// the one of the preferred tool first, then the others by priority
/// (Poetry, uv, PDM, Pipenv).
pub open spec fn python_order(preferred: Option<PythonLockfileType>) -> Seq<PythonLockfileType> {
    let all = seq![
        PythonLockfileType::PoetryLock,
        PythonLockfileType::UvLock,
        PythonLockfileType::PdmLock,
        PythonLockfileType::PipfileLock,
    ];
    match preferred {
        Some(p) => seq![p] + all.filter(|t: PythonLockfileType| t != p),
        None => all,
    }
}

/// The Python lockfile kinds in checking order (see [`python_order`]).
pub fn python_lockfile_order(preferred: Option<PythonLockfileType>) -> (r: Vec<PythonLockfileType>)
    ensures
        r@ == python_order(preferred),
{
    let all = vec![
        PythonLockfileType::PoetryLock,
        PythonLockfileType::UvLock,
        PythonLockfileType::PdmLock,
        PythonLockfileType::PipfileLock,
    ];
    let mut out: Vec<PythonLockfileType> = Vec::new();
    match preferred {
        Some(p) => out.push(p),
        None => {},
    }
    let ghost pre = out@;
    let mut i: usize = 0;
    while i < all.len()
        invariant
            i <= all@.len(),
            all@ == seq![
                PythonLockfileType::PoetryLock,
                PythonLockfileType::UvLock,
                PythonLockfileType::PdmLock,
                PythonLockfileType::PipfileLock,
            ],
            pre == (match preferred {
                Some(p) => seq![p],
                None => Seq::<PythonLockfileType>::empty(),
            }),
            out@ == pre + (match preferred {
                Some(p) => all@.take(i as int).filter(|t: PythonLockfileType| t != p),
                None => all@.take(i as int),
            }),
        decreases all@.len() - i,
    {
        let t = all[i];
        let keep = match preferred {
            Some(p) => t != p,
            None => true,
        };
        proof {
            assert(all@.take(i + 1).drop_last() =~= all@.take(i as int));
            assert(all@.take(i + 1).last() == t);
            reveal(Seq::filter);
        }
        if keep {
            out.push(t);
        }
        proof {
            match preferred {
                Some(p) => {
                    let f = all@.take(i + 1).filter(|t: PythonLockfileType| t != p);
                    assert(f == if t != p {
                        all@.take(i as int).filter(|t: PythonLockfileType| t != p).push(t)
                    } else {
                        all@.take(i as int).filter(|t: PythonLockfileType| t != p)
                    });
                },
                None => {},
            }
        }
        i = i + 1;
    }
    proof {
        assert(all@.take(4) =~= all@);
        match preferred {
            Some(p) => {},
            None => {
                assert(out@ =~= all@);
            },
        }
    }
    out
}

/// The file name of a Python lockfile kind.
pub fn python_lockfile_name(t: PythonLockfileType) -> (r: &'static str)
    ensures
        r@ == (match t {
            PythonLockfileType::PoetryLock => "poetry.lock"@,
            PythonLockfileType::UvLock => "uv.lock"@,
            PythonLockfileType::PdmLock => "pdm.lock"@,
            PythonLockfileType::PipfileLock => "Pipfile.lock"@,
        }),
{
    match t {
        PythonLockfileType::PoetryLock => "poetry.lock",
        PythonLockfileType::UvLock => "uv.lock",
        PythonLockfileType::PdmLock => "pdm.lock",
        PythonLockfileType::PipfileLock => "Pipfile.lock",
    }
}

/// The Node.js lockfiles in the order they are checked in each directory.
pub fn npm_lockfile_order() -> (r: Vec<NpmLockfileType>)
    ensures
        r@ == seq![
            NpmLockfileType::PackageLock,
            NpmLockfileType::YarnLock,
            NpmLockfileType::PnpmLock,
            NpmLockfileType::BunLock,
        ],
{
    vec![
        NpmLockfileType::PackageLock,
        NpmLockfileType::YarnLock,
        NpmLockfileType::PnpmLock,
        NpmLockfileType::BunLock,
    ]
}

/// The file name of a Node.js lockfile kind.
pub fn npm_lockfile_name(t: NpmLockfileType) -> (r: &'static str)
    ensures
        r@ == (match t {
            NpmLockfileType::PackageLock => "package-lock.json"@,
            NpmLockfileType::YarnLock => "yarn.lock"@,
            NpmLockfileType::PnpmLock => "pnpm-lock.yaml"@,
            NpmLockfileType::BunLock => "bun.lock"@,
        }),
{
    match t {
        NpmLockfileType::PackageLock => "package-lock.json",
        NpmLockfileType::YarnLock => "yarn.lock",
        NpmLockfileType::PnpmLock => "pnpm-lock.yaml",
        NpmLockfileType::BunLock => "bun.lock",
    }
}

} // verus!
