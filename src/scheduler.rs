use vstd::prelude::*;

use crate::bands::{band_of, bands, Band};

verus! {

/// Why an engine cannot be set up.
#[derive(Clone, Copy, Debug, PartialEq, Eq, Structural)]
pub enum ConfigError {
    /// No worker to hand the bands to.
    NoWorkers,
    /// The grid has no rows or no columns.
    EmptyGrid,
    /// The grid has more cells than memory can index.
    GridTooLarge,
}

/// Decides when a new frame is generated and how its rows are handed out.
pub struct Scheduler {
    width: u32,
    height: u32,
    n_workers: u32,
    jobs_submitted: u64,
}

/// The bands of one pass over `height` rows shared by `n_workers` workers.
pub open spec fn pass_bands(height: int, n_workers: int) -> Seq<Band> {
    Seq::new(n_workers as nat, |i: int| band_of(height, n_workers, i))
}

impl Scheduler {
    pub closed spec fn spec_width(&self) -> nat {
        self.width as nat
    }

    pub closed spec fn spec_height(&self) -> nat {
        self.height as nat
    }

    pub closed spec fn spec_n_workers(&self) -> nat {
        self.n_workers as nat
    }

    pub closed spec fn spec_jobs_submitted(&self) -> nat {
        self.jobs_submitted as nat
    }

    /// A usable configuration: at least one worker and a non-empty grid whose
    /// cells can be indexed.
    pub open spec fn wf(&self) -> bool {
        &&& self.spec_n_workers() > 0
        &&& self.spec_width() > 0
        &&& self.spec_height() > 0
        &&& self.spec_width() * self.spec_height() <= usize::MAX
    }

    /// A scheduler for a `width` by `height` grid shared by `n_workers`
    /// workers, with no job submitted yet.
    pub fn new(width: u32, height: u32, n_workers: u32) -> (r: Result<Scheduler, ConfigError>)
        ensures
            n_workers == 0 ==> r == Err::<Scheduler, ConfigError>(ConfigError::NoWorkers),
            n_workers > 0 && (width == 0 || height == 0) ==> r == Err::<Scheduler, ConfigError>(ConfigError::EmptyGrid),
            n_workers > 0 && width > 0 && height > 0 && width * height > usize::MAX ==> r == Err::<Scheduler, ConfigError>(ConfigError::GridTooLarge),
            r is Ok <==> n_workers > 0 && width > 0 && height > 0 && width * height <= usize::MAX,
            r matches Ok(s) ==> {
                &&& s.wf()
                &&& s.spec_width() == width
                &&& s.spec_height() == height
                &&& s.spec_n_workers() == n_workers
                &&& s.spec_jobs_submitted() == 0
            },
    {
        if n_workers == 0 {
            return Err(ConfigError::NoWorkers);
        }
        if width == 0 || height == 0 {
            return Err(ConfigError::EmptyGrid);
        }
        if (width as usize).checked_mul(height as usize).is_none() {
            return Err(ConfigError::GridTooLarge);
        }
        Ok(Scheduler { width, height, n_workers, jobs_submitted: 0 })
    }

    pub fn width(&self) -> (w: u32)
        ensures
            w == self.spec_width(),
    {
        self.width
    }

    pub fn height(&self) -> (h: u32)
        ensures
            h == self.spec_height(),
    {
        self.height
    }

    pub fn n_workers(&self) -> (n: u32)
        ensures
            n == self.spec_n_workers(),
    {
        self.n_workers
    }

    /// How many band jobs have been handed out so far (saturating).
    pub fn jobs_submitted(&self) -> (n: u64)
        ensures
            n == self.spec_jobs_submitted(),
    {
        self.jobs_submitted
    }

    /// Starts a frame unless the workers are still busy with the previous one.
    /// While `busy`, nothing is handed out and nothing changes. Otherwise the
    /// bands of a full pass are returned, one job per worker, and counted as
    /// submitted.
    pub fn generate(&mut self, busy: bool) -> (r: Vec<Band>)
        requires
            old(self).wf(),
        ensures
            busy ==> r@.len() == 0 && *final(self) == *old(self),
            !busy ==> {
                &&& r@ == pass_bands(old(self).spec_height() as int, old(self).spec_n_workers() as int)
                &&& final(self).spec_width() == old(self).spec_width()
                &&& final(self).spec_height() == old(self).spec_height()
                &&& final(self).spec_n_workers() == old(self).spec_n_workers()
                &&& final(self).spec_jobs_submitted() == if old(self).spec_jobs_submitted() + old(self).spec_n_workers() > u64::MAX {
                    u64::MAX as nat
                } else {
                    old(self).spec_jobs_submitted() + old(self).spec_n_workers()
                }
            },
            final(self).wf(),
    {
        if busy {
            return Vec::new();
        }
        let r = bands(self.height, self.n_workers);
        assert(r@ =~= pass_bands(self.height as int, self.n_workers as int));
        self.jobs_submitted = self.jobs_submitted.saturating_add(self.n_workers as u64);
        r
    }
}

} // verus!
