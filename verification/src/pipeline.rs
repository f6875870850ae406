use vstd::prelude::*;

verus! {

/// The step between sampled frames: `every` when it is above 1, else 1.
pub open spec fn step_of(every: usize) -> int {
    if every > 1 { every as int } else { 1 }
}

/// Every `step_of(every)`-th file, starting with the first.
pub open spec fn sampled(files: Seq<String>, every: usize) -> Seq<String> {
    let e = step_of(every);
    Seq::new(((files.len() + e - 1) / e) as nat, |k: int| files[k * e])
}

/// The files that become frames: the sample of `files`, cut to at most
/// `limit` frames when a limit is given.
pub open spec fn selected(files: Seq<String>, every: usize, limit: Option<usize>) -> Seq<String> {
    let s = sampled(files, every);
    match limit {
        Some(l) => if l < s.len() { s.take(l as int) } else { s },
        None => s,
    }
}

proof fn lemma_sample_count(n: int, e: int, c: int)
    requires
        e >= 1,
        n >= 0,
        c >= 0,
    ensures
        (c * e < n) == (c < (n + e - 1) / e),
{
    assert((c * e < n) == (c < (n + e - 1) / e)) by (nonlinear_arith)
        requires
            e >= 1,
            n >= 0,
            c >= 0,
    ;
}

/// Frame `k` of the selection is file `k * e`, where `e` is `every` (1 when
/// `every` is 0 or 1); the selection holds exactly the `k` with `k * e`
/// inside the files, and below the limit when one is given. So with no
/// limit and `every` at most 1 every file is kept, in order.
pub proof fn lemma_selected_frames(files: Seq<String>, every: usize, limit: Option<usize>)
    ensures
        ({
            let e: int = if every > 1 { every as int } else { 1 };
            let sel = selected(files, every, limit);
            &&& forall|k: int| 0 <= k < sel.len() ==> k * e < files.len() && #[trigger] sel[k] == files[k * e]
            &&& forall|k: int|
                0 <= k && #[trigger] (k * e) < files.len() && (limit matches Some(l) ==> k < l) ==> k < sel.len()
            &&& limit matches Some(l) ==> sel.len() <= l
            &&& every <= 1 && limit is None ==> sel == files
        }),
{
    let e: int = if every > 1 { every as int } else { 1 };
    let n = files.len() as int;
    assert forall|k: int| 0 <= k && #[trigger] (k * e) < n implies k < (n + e - 1) / e by {
        lemma_sample_count(n, e, k);
    }
    assert forall|k: int| 0 <= k < (n + e - 1) / e implies #[trigger] (k * e) < n by {
        lemma_sample_count(n, e, k);
    }
    if every <= 1 {
        assert((n + 1 - 1) / 1 == n);
        assert(sampled(files, every) =~= files);
    }
}

/// Keeps every `every`-th file (all of them when `every` is 0 or 1), then at
/// most `limit` of those.
pub fn select_frames(files: &Vec<String>, every: usize, limit: Option<usize>) -> (r: Vec<String>)
    ensures
        r@ == selected(files@, every, limit),
{
    let e: usize = if every > 1 { every } else { 1 };
    let n = files.len();
    let mut out: Vec<String> = Vec::new();
    let mut i: usize = 0;
    let ghost s = sampled(files@, every);
    assert(out@.len() * e == 0) by (nonlinear_arith)
        requires
            out@.len() == 0,
    ;
    loop
        invariant
            e as int == step_of(every),
            n == files@.len(),
            s == sampled(files@, every),
            i <= n,
            i < n ==> i as int == out@.len() * e,
            i == n ==> out@.len() * e >= n,
            out@.len() <= s.len(),
            forall|k: int| 0 <= k < out@.len() ==> #[trigger] out@[k] == s[k],
            limit matches Some(l) ==> out@.len() <= l,
        ensures
            out@ == selected(files@, every, limit),
        decreases n + 1 - i, s.len() - out@.len(),
    {
        proof {
            lemma_sample_count(n as int, e as int, out@.len() as int);
        }
        if i >= n {
            assert(out@ =~= s);
            break;
        }
        if let Some(l) = limit {
            if out.len() >= l {
                assert(out@ =~= s.take(l as int));
                break;
            }
        }
        assert(s[out@.len() as int] == files@[i as int]);
        out.push(files[i].clone());
        let ghost c = out@.len() as int;
        if e > n - i {
            assert(c * e >= n) by (nonlinear_arith)
                requires
                    i as int == (c - 1) * e,
                    e > n - i,
            ;
            i = n;
        } else {
            assert(i + e == c * e) by (nonlinear_arith)
                requires
                    i as int == (c - 1) * e,
            ;
            i = i + e;
        }
    }
    out
}

/// How many bytes of decoded frames one batch may hold.
pub const BATCH_MEMORY: usize = 536870912;

/// The number of frames decoded at once: the thread count, but at least 4
/// and at most as many `tw` x `th` RGB frames as fit in `BATCH_MEMORY`
/// (though never fewer than 4).
pub open spec fn batch_spec(threads: usize, tw: u32, th: u32) -> int {
    let c: int = if threads < 1 { 1 } else { threads as int };
    let bytes: int = tw * th * 3;
    let per: int = BATCH_MEMORY as int / (if bytes < 1 { 1 } else { bytes });
    let cap: int = if per < 4 { 4 } else { per };
    if c < 4 { 4 } else if c > cap { cap } else { c }
}

/// The bytes of one `tw` x `th` RGB frame, counted as at least 1.
pub open spec fn frame_size(tw: u32, th: u32) -> int {
    if tw * th * 3 < 1 { 1 } else { tw * th * 3 }
}

/// The batch size for decoding with `threads` threads at an output size of
/// `tw` x `th` (see `batch_spec`).
pub fn batch_size(threads: usize, tw: u32, th: u32) -> (r: usize)
    requires
        tw * th * 3 <= usize::MAX,
    ensures
        r == batch_spec(threads, tw, th),
        r >= 4,
        r > 4 ==> r <= threads && r * frame_size(tw, th) <= BATCH_MEMORY,
        r < threads ==> (r + 1) * frame_size(tw, th) > BATCH_MEMORY,
{
    let concurrency: usize = if threads < 1 { 1 } else { threads };
    let frame_bytes: usize = (tw as usize) * (th as usize) * 3;
    let b: usize = if frame_bytes < 1 { 1 } else { frame_bytes };
    let per: usize = BATCH_MEMORY / b;
    assert(per * b <= BATCH_MEMORY && (per + 1) * b > BATCH_MEMORY) by (nonlinear_arith)
        requires
            b >= 1,
            per == BATCH_MEMORY / b,
    ;
    let mem_cap: usize = if per < 4 { 4 } else { per };
    assert forall|k: int| k <= per implies #[trigger] (k * b) <= BATCH_MEMORY by {
        assert(k * b <= per * b) by (nonlinear_arith)
            requires
                k <= per,
                b >= 1,
        ;
    }
    assert forall|k: int| k >= per + 1 implies #[trigger] (k * b) > BATCH_MEMORY by {
        assert(k * b >= (per + 1) * b) by (nonlinear_arith)
            requires
                k >= per + 1,
                b >= 1,
        ;
    }
    if concurrency < 4 {
        4
    } else if concurrency > mem_cap {
        mem_cap
    } else {
        concurrency
    }
}

/// What came back for one frame of a batch.
#[derive(Copy, Clone, Debug, PartialEq, Eq, Structural)]
pub enum FrameResult {
    /// Decoding was not started because the build was cancelled.
    NotRun,
    /// The frame decoded.
    Decoded,
    /// The frame could not be decoded.
    Failed,
}

/// What to do with that frame.
#[derive(Copy, Clone, Debug, PartialEq, Eq, Structural)]
pub enum Action {
    /// Stop the build: it was cancelled.
    Stop,
    /// Send the frame to the encoder.
    Write,
    /// Leave the frame out and report it.
    Skip,
}

/// How a build ended.
#[derive(Copy, Clone, Debug, PartialEq, Eq, Structural)]
pub enum Outcome {
    /// Stopped early, after encoding this many frames.
    Cancelled { encoded: usize },
    /// Ran through every frame.
    Finished { encoded: usize, skipped: usize },
}

/// Progress through the frames of a build.
pub struct Tally {
    /// Frames to go through.
    pub total: usize,
    /// Frames handled so far, written or skipped.
    pub done: usize,
    /// Frames skipped so far.
    pub skipped: usize,
}

impl Tally {
    /// The counts agree: no more skipped than handled, no more handled than
    /// there are.
    pub open spec fn wf(&self) -> bool {
        self.skipped <= self.done <= self.total
    }

    /// A build of `total` frames that has not started.
    pub fn new(total: usize) -> (t: Tally)
        ensures
            t.wf(),
            t.total == total,
            t.done == 0,
            t.skipped == 0,
    {
        Tally { total, done: 0, skipped: 0 }
    }

    /// Takes in the result for the next frame and says what to do with it:
    /// a decoded frame is written, a failed one skipped, and a frame that was
    /// not run stops the build; the first two count as handled.
    pub fn step(&mut self, result: FrameResult) -> (a: Action)
        requires
            old(self).wf(),
            old(self).done < old(self).total,
        ensures
            final(self).wf(),
            final(self).total == old(self).total,
            a == (match result {
                FrameResult::NotRun => Action::Stop,
                FrameResult::Decoded => Action::Write,
                FrameResult::Failed => Action::Skip,
            }),
            final(self).done == old(self).done + (if result == FrameResult::NotRun { 0int } else { 1 }),
            final(self).skipped == old(self).skipped + (if result == FrameResult::Failed { 1int } else { 0 }),
    {
        match result {
            FrameResult::NotRun => Action::Stop,
            FrameResult::Decoded => {
                self.done = self.done + 1;
                Action::Write
            },
            FrameResult::Failed => {
                self.done = self.done + 1;
                self.skipped = self.skipped + 1;
                Action::Skip
            },
        }
    }

    /// Frames written to the encoder so far.
    pub fn encoded(&self) -> (r: usize)
        requires
            self.wf(),
        ensures
            r == self.done - self.skipped,
    {
        self.done - self.skipped
    }

    /// How the build ended: when it was cancelled, with the frames written so
    /// far; otherwise with every frame that was not skipped.
    pub fn outcome(&self, cancelled: bool) -> (o: Outcome)
        requires
            self.wf(),
        ensures
            o == (if cancelled {
                Outcome::Cancelled { encoded: (self.done - self.skipped) as usize }
            } else {
                Outcome::Finished { encoded: (self.total - self.skipped) as usize, skipped: self.skipped }
            }),
    {
        if cancelled {
            Outcome::Cancelled { encoded: self.done - self.skipped }
        } else {
            Outcome::Finished { encoded: self.total - self.skipped, skipped: self.skipped }
        }
    }
}

} // verus!
