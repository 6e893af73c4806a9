//! Capture-side reduction and window aggregation.
//!
//! The audio device drives a time-critical callback in the shell; the
//! callback reduces each multi-channel block to mono here, then posts it
//! on the inter-thread channel. The worker feeds received messages to an
//! [`Aggregator`], which collects a fixed number of deliveries into one
//! analysis window and decides when a window is ready and when to halt.

use vstd::prelude::*;

verus! {

/// What flows through the channel from the capture callback (and, for
/// shutdown, from the control thread) to the worker. The stop sentinel is
/// enqueued after any pending data, so the worker observes it strictly
/// after everything recorded before it.
pub enum ChannelMsg {
    /// One mono sample block, fixed-point amplitudes.
    Data(Vec<i32>),
    /// Cooperative shutdown sentinel.
    Stop,
}

/// The aggregator's verdict on one delivery.
pub enum FeedResult {
    /// The window is still accumulating.
    Pending,
    /// A full window: exactly `target` deliveries, concatenated.
    Window(Vec<i32>),
    /// The stop sentinel arrived: any partial window is discarded and the
    /// worker must exit without emitting anything further.
    Halted,
}

/// Collects a fixed count of sample-block deliveries into one analysis
/// window. The count is tuned upstream so a window spans roughly the
/// device's minimum visual transition interval.
pub struct Aggregator {
    target: usize,
    received: usize,
    buf: Vec<i32>,
}

impl Aggregator {
    /// The window is complete after this many deliveries.
    pub closed spec fn target(self) -> int {
        self.target as int
    }

    /// Deliveries accumulated into the current (incomplete) window.
    pub closed spec fn received(self) -> int {
        self.received as int
    }

    /// The samples accumulated so far, in arrival order.
    pub closed spec fn samples(self) -> Seq<i32> {
        self.buf@
    }

    /// A window always completes before the delivery count reaches the
    /// target.
    pub closed spec fn wf(self) -> bool {
        self.target >= 1 && self.received < self.target
    }

    pub fn new(target: usize) -> (a: Aggregator)
        requires
            target >= 1,
        ensures
            a.wf(),
            a.target() == target,
            a.received() == 0,
            a.samples() == Seq::<i32>::empty(),
    {
        Aggregator { target, received: 0, buf: Vec::new() }
    }

    /// Feed one channel message. A data block joins the current window;
    /// the delivery that completes the window hands the whole window out
    /// and starts the next one. The stop sentinel always halts: a
    /// partially accumulated window is discarded, never emitted.
    pub fn feed(&mut self, msg: ChannelMsg) -> (r: FeedResult)
        requires
            old(self).wf(),
        ensures
            final(self).wf(),
            final(self).target() == old(self).target(),
            msg is Stop ==> r is Halted && final(self).received() == 0 && final(self).samples()
                == Seq::<i32>::empty(),
            msg matches ChannelMsg::Data(block) ==> if old(self).received() + 1 == old(
                self,
            ).target() {
                &&& r matches FeedResult::Window(w) && w@ == old(self).samples() + block@
                &&& final(self).received() == 0
                &&& final(self).samples() == Seq::<i32>::empty()
            } else {
                &&& r is Pending
                &&& final(self).received() == old(self).received() + 1
                &&& final(self).samples() == old(self).samples() + block@
            },
    {
        match msg {
            ChannelMsg::Stop => {
                self.received = 0;
                self.buf = Vec::new();
                FeedResult::Halted
            },
            ChannelMsg::Data(mut block) => {
                self.buf.append(&mut block);
                if self.received + 1 == self.target {
                    self.received = 0;
                    let mut window = Vec::new();
                    core::mem::swap(&mut window, &mut self.buf);
                    FeedResult::Window(window)
                } else {
                    self.received = self.received + 1;
                    FeedResult::Pending
                }
            },
        }
    }
}

/// The greatest sample in `data[lo..hi]`.
pub open spec fn peak_in(data: Seq<i32>, lo: int, hi: int) -> int
    decreases hi - lo,
{
    if hi <= lo + 1 {
        data[lo] as int
    } else {
        let m = peak_in(data, lo, hi - 1);
        if data[hi - 1] > m {
            data[hi - 1] as int
        } else {
            m
        }
    }
}

/// Reduce an interleaved multi-channel block to mono: each frame of
/// `n_channels` consecutive samples becomes the loudest of its channels,
/// favoring transient response. A trailing partial frame is dropped.
pub fn mono_reduce(data: &Vec<i32>, n_channels: usize) -> (r: Vec<i32>)
    requires
        n_channels >= 1,
    ensures
        r@.len() == data@.len() as int / n_channels as int,
        forall|j: int|
            0 <= j < r@.len() ==> #[trigger] r@[j] as int == peak_in(
                data@,
                j * n_channels,
                j * n_channels + n_channels,
            ),
{
    let n_frames = data.len() / n_channels;
    proof {
        vstd::arithmetic::div_mod::lemma_fundamental_div_mod(data@.len() as int, n_channels as int);
        assert(data@.len() == (n_channels as int) * (data@.len() as int / (n_channels as int))
            + data@.len() as int % (n_channels as int));
        assert(n_frames * n_channels <= data@.len()) by (nonlinear_arith)
            requires
                n_frames == data@.len() as int / n_channels as int,
                n_channels >= 1,
                data@.len() == (n_channels as int) * (data@.len() as int / (n_channels as int))
                    + data@.len() as int % (n_channels as int),
                data@.len() as int % (n_channels as int) >= 0,
        ;
    }
    let mut r: Vec<i32> = Vec::new();
    let mut j: usize = 0;
    while j < n_frames
        invariant
            n_channels >= 1,
            data@.len() <= usize::MAX,
            n_frames == data@.len() as int / n_channels as int,
            n_frames * n_channels <= data@.len(),
            0 <= j <= n_frames,
            r@.len() == j,
            forall|q: int|
                0 <= q < j ==> #[trigger] r@[q] as int == peak_in(
                    data@,
                    q * n_channels,
                    q * n_channels + n_channels,
                ),
        decreases n_frames - j,
    {
        proof {
            assert((j + 1) * n_channels <= n_frames * n_channels) by (nonlinear_arith)
                requires
                    j + 1 <= n_frames,
                    n_channels >= 1,
            ;
            assert(j * n_channels + n_channels == (j + 1) * n_channels) by (nonlinear_arith);
        }
        let base = j * n_channels;
        let mut cur = data[base];
        let mut k: usize = 1;
        while k < n_channels
            invariant
                n_channels >= 1,
                1 <= k <= n_channels,
                base == j * n_channels,
                data@.len() <= usize::MAX,
                base + n_channels <= data@.len(),
                cur as int == peak_in(data@, base as int, base + k),
            decreases n_channels - k,
        {
            let s = data[base + k];
            if s > cur {
                cur = s;
            }
            k += 1;
        }
        r.push(cur);
        j += 1;
    }
    r
}

} // verus!
