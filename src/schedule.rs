use vstd::prelude::*;

verus! {

/// The samples per pixel that worker `w` of `workers` takes out of `total`:
/// an equal share, with the remainder handed out one each to the first
/// workers, so that no sample of the budget is dropped.
pub open spec fn spec_share(total: nat, workers: nat, w: nat) -> nat {
    total / workers + if w < total % workers {
        1nat
    } else {
        0nat
    }
}

/// The shares of workers `0..n`, added up.
pub open spec fn shares_sum(total: nat, workers: nat, n: nat) -> nat
    decreases n,
{
    if n == 0 {
        0
    } else {
        shares_sum(total, workers, (n - 1) as nat) + spec_share(total, workers, (n - 1) as nat)
    }
}

/// Worker `w`'s share of `total` samples per pixel among `workers`.
pub fn share(total: usize, workers: usize, w: usize) -> (r: usize)
    requires
        workers >= 1,
        w < workers,
    ensures
        r == spec_share(total as nat, workers as nat, w as nat),
{
    let base = total / workers;
    proof {
        assert(base * workers <= total) by (nonlinear_arith)
            requires base == total / workers, workers >= 1;
        assert(base < total || base == 0 || workers == 1) by (nonlinear_arith)
            requires base == total / workers, workers >= 1;
    }
    if w < total % workers {
        base + 1
    } else {
        base
    }
}

proof fn lemma_partial_sum(total: nat, workers: nat, n: nat)
    requires
        workers >= 1,
        n <= workers,
    ensures
        shares_sum(total, workers, n) == n * (total / workers) + if n < total % workers {
            n
        } else {
            total % workers
        },
    decreases n,
{
    let q = total / workers;
    if n > 0 {
        lemma_partial_sum(total, workers, (n - 1) as nat);
        assert((n - 1) * q + q == n * q) by (nonlinear_arith)
            requires n >= 1;
    } else {
        assert(n * q == 0) by (nonlinear_arith)
            requires n == 0;
    }
}

/// The shares of all workers add up to the whole budget, and when the
/// budget divides evenly every worker takes the same share.
pub proof fn lemma_shares_cover_total(total: nat, workers: nat)
    requires
        workers >= 1,
    ensures
        shares_sum(total, workers, workers) == total,
        total % workers == 0 ==> forall|w: nat| w < workers ==> #[trigger] spec_share(total, workers, w) == total / workers,
{
    lemma_partial_sum(total, workers, workers);
    assert(total % workers < workers) by (nonlinear_arith)
        requires workers >= 1;
    assert(workers * (total / workers) + total % workers == total) by (nonlinear_arith)
        requires workers >= 1;
}

/// Relies on num_cpus::get: the number of logical CPUs this process may use.
/// Nothing is promised of it.
#[verifier::external_body]
fn available_cpus() -> (r: usize) {
    num_cpus::get()
}

/// The size of the worker pool for `cpus` available CPUs: one per CPU, and
/// at least one.
pub fn pool_size(cpus: usize) -> (r: usize)
    ensures
        r >= 1,
        cpus >= 1 ==> r == cpus,
{
    if cpus == 0 {
        1
    } else {
        cpus
    }
}

/// The size of the worker pool on this machine.
pub fn worker_count() -> (r: usize)
    ensures
        r >= 1,
{
    pool_size(available_cpus())
}

/// Rows between two progress reports of a worker.
pub const PROGRESS_ROWS: usize = 100;

/// Whether a worker reports progress on reaching `row`.
pub fn reports_progress(row: usize) -> (r: bool)
    ensures
        r == (row % PROGRESS_ROWS == 0),
{
    row % PROGRESS_ROWS == 0
}

/// The pixel grid of an image. Buffers hold its pixels in scan order: rows
/// from the top one (`height - 1`) down, each from left to right.
#[derive(Clone, Copy, Debug, PartialEq, Eq, Structural)]
pub struct Frame {
    width: usize,
    height: usize,
}

impl Frame {
    pub closed spec fn spec_width(self) -> nat {
        self.width as nat
    }

    pub closed spec fn spec_height(self) -> nat {
        self.height as nat
    }

    /// At least two pixels each way (screen coordinates divide by
    /// `width - 1` and `height - 1`), and the pixel count fits.
    pub open spec fn wf(self) -> bool {
        &&& self.spec_width() >= 2
        &&& self.spec_height() >= 2
        &&& self.spec_width() * self.spec_height() <= usize::MAX
    }

    /// The position in scan order of the pixel at `column`, `row`.
    pub open spec fn spec_index(self, column: nat, row: nat) -> nat {
        ((self.spec_height() - 1 - row) * self.spec_width() + column) as nat
    }

    /// A frame of `width` by `height` pixels; none below two pixels either way
    /// or with more pixels than a buffer can index.
    pub fn new(width: usize, height: usize) -> (r: Option<Frame>)
        ensures
            r is Some <==> (width >= 2 && height >= 2 && width * height <= usize::MAX),
            r matches Some(f) ==> f.wf() && f.spec_width() == width && f.spec_height() == height,
    {
        if width < 2 || height < 2 {
            return None;
        }
        match width.checked_mul(height) {
            Some(_) => Some(Frame { width, height }),
            None => None,
        }
    }

    pub fn width(&self) -> (r: usize)
        ensures
            r == self.spec_width(),
    {
        self.width
    }

    pub fn height(&self) -> (r: usize)
        ensures
            r == self.spec_height(),
    {
        self.height
    }

    /// The number of pixels.
    pub fn pixel_count(&self) -> (r: usize)
        requires
            self.wf(),
        ensures
            r == self.spec_width() * self.spec_height(),
    {
        self.width * self.height
    }

    /// The position in scan order of the pixel at `column`, `row`.
    pub fn index_of(&self, column: usize, row: usize) -> (r: usize)
        requires
            self.wf(),
            column < self.spec_width(),
            row < self.spec_height(),
        ensures
            r == self.spec_index(column as nat, row as nat),
            r < self.spec_width() * self.spec_height(),
    {
        let up = self.height - 1 - row;
        proof {
            assert(up * self.width + column < self.width * self.height) by (nonlinear_arith)
                requires up < self.height, column < self.width;
        }
        up * self.width + column
    }

    /// The column and row of the pixel at position `index` of scan order.
    pub fn pixel_at(&self, index: usize) -> (r: (usize, usize))
        requires
            self.wf(),
            index < self.spec_width() * self.spec_height(),
        ensures
            r.0 < self.spec_width(),
            r.1 < self.spec_height(),
            self.spec_index(r.0 as nat, r.1 as nat) == index,
    {
        let up = index / self.width;
        let column = index % self.width;
        proof {
            assert(up < self.height) by (nonlinear_arith)
                requires up == index / self.width, index < self.width * self.height, self.width >= 2;
            assert(up * self.width + column == index) by (nonlinear_arith)
                requires up == index / self.width, column == index % self.width, self.width >= 2;
        }
        (column, self.height - 1 - up)
    }
}

} // verus!
