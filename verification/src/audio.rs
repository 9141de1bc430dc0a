//! The decisions of the synthesiser that renders audio on a GPU and plays it
//! through JACK: which device computes, how the work is dispatched, where
//! each channel lies in a rendered block, and when playback stops.
use vstd::prelude::*;

verus! {

/// Samples per channel in one rendered block.
pub const DATA_BUFFER_SAMPLES: u32 = 8192;

/// Samples per second.
pub const SAMPLE_RATE: u32 = 48000;

/// Output channels.
pub const CHANNELS: u32 = 2;

/// Samples in one rendered block, all channels together.
pub const DATA_BUFFER_SIZE: u32 = DATA_BUFFER_SAMPLES * CHANNELS;

/// The kinds of physical device a Vulkan driver reports; `Unknown` stands
/// for any kind added after these.
#[derive(Clone, Copy, Debug, PartialEq, Eq, Structural)]
pub enum DeviceKind {
    DiscreteGpu,
    IntegratedGpu,
    VirtualGpu,
    Cpu,
    Other,
    Unknown,
}

/// How much a kind of device is preferred: lower is better.
pub open spec fn rank_spec(kind: DeviceKind) -> nat {
    match kind {
        DeviceKind::DiscreteGpu => 0,
        DeviceKind::IntegratedGpu => 1,
        DeviceKind::VirtualGpu => 2,
        DeviceKind::Cpu => 3,
        DeviceKind::Other => 4,
        DeviceKind::Unknown => 5,
    }
}

/// The preference rank of a kind of device: discrete GPUs first, then
/// integrated, virtual, CPU, other and unknown ones.
pub fn device_rank(kind: DeviceKind) -> (r: u32)
    ensures
        r == rank_spec(kind),
{
    match kind {
        DeviceKind::DiscreteGpu => 0,
        DeviceKind::IntegratedGpu => 1,
        DeviceKind::VirtualGpu => 2,
        DeviceKind::Cpu => 3,
        DeviceKind::Other => 4,
        DeviceKind::Unknown => 5,
    }
}

/// The first index at which `flags` is set, if any.
pub open spec fn first_set(flags: Seq<bool>) -> Option<int>
    decreases flags.len(),
{
    if flags.len() == 0 {
        None
    } else {
        match first_set(flags.drop_last()) {
            Some(i) => Some(i),
            None => if flags.last() {
                Some(flags.len() - 1)
            } else {
                None
            },
        }
    }
}

/// `first_set` names the least index whose flag is set, and is `None`
/// exactly when no flag is.
pub proof fn lemma_first_set(flags: Seq<bool>)
    ensures
        match first_set(flags) {
            Some(i) => 0 <= i < flags.len() && flags[i] && forall|j: int|
                0 <= j < i ==> !#[trigger] flags[j],
            None => forall|j: int| 0 <= j < flags.len() ==> !#[trigger] flags[j],
        },
    decreases flags.len(),
{
    if flags.len() > 0 {
        let init = flags.drop_last();
        lemma_first_set(init);
        assert forall|j: int| 0 <= j < init.len() implies init[j] == flags[j] by {}
    }
}

/// The first queue family that can run compute work.
pub fn compute_family(families: &[bool]) -> (r: Option<usize>)
    ensures
        match r {
            Some(i) => first_set(families@) == Some(i as int),
            None => first_set(families@) is None,
        },
{
    let mut i: usize = 0;
    let mut found: Option<usize> = None;
    while i < families.len()
        invariant
            i <= families.len(),
            match found {
                Some(q) => first_set(families@.take(i as int)) == Some(q as int),
                None => first_set(families@.take(i as int)) is None,
            },
        decreases families.len() - i,
    {
        assert(families@.take(i + 1).drop_last() =~= families@.take(i as int));
        if found.is_none() && families[i] {
            found = Some(i);
        }
        i = i + 1;
    }
    assert(families@.take(i as int) =~= families@);
    found
}

/// A physical device as the choice of device sees it.
pub struct DeviceCandidate {
    /// Whether it supports the extensions the synthesiser needs.
    pub supports_extensions: bool,
    /// For each of its queue families, in order, whether it runs compute work.
    pub compute_families: Vec<bool>,
    /// Its kind.
    pub kind: DeviceKind,
}

/// A device can be used when it supports the extensions and has a queue
/// family for compute work.
pub open spec fn usable(c: DeviceCandidate) -> bool {
    c.supports_extensions && first_set(c.compute_families@) is Some
}

/// The device the synthesiser runs on, with its first compute queue family:
/// among the usable devices, one of the most preferred kind, the first such
/// in the order given; `None` when no device is usable.
pub fn choose_device(candidates: &[DeviceCandidate]) -> (r: Option<(usize, usize)>)
    ensures
        match r {
            None => forall|j: int| 0 <= j < candidates@.len() ==> !usable(#[trigger] candidates@[j]),
            Some((i, q)) => {
                &&& i < candidates@.len()
                &&& usable(candidates@[i as int])
                &&& first_set(candidates@[i as int].compute_families@) == Some(q as int)
                &&& forall|j: int|
                    0 <= j < candidates@.len() && usable(#[trigger] candidates@[j]) ==> rank_spec(
                        candidates@[i as int].kind,
                    ) <= rank_spec(candidates@[j].kind)
                &&& forall|j: int|
                    0 <= j < i && usable(#[trigger] candidates@[j]) ==> rank_spec(
                        candidates@[i as int].kind,
                    ) < rank_spec(candidates@[j].kind)
            },
        },
{
    let mut best: Option<(usize, usize)> = None;
    let mut best_rank: u32 = 0;
    let mut k: usize = 0;
    while k < candidates.len()
        invariant
            k <= candidates@.len(),
            match best {
                None => forall|j: int| 0 <= j < k ==> !usable(#[trigger] candidates@[j]),
                Some((i, q)) => {
                    &&& i < k
                    &&& usable(candidates@[i as int])
                    &&& first_set(candidates@[i as int].compute_families@) == Some(q as int)
                    &&& best_rank == rank_spec(candidates@[i as int].kind)
                    &&& forall|j: int|
                        0 <= j < k && usable(#[trigger] candidates@[j]) ==> rank_spec(
                            candidates@[i as int].kind,
                        ) <= rank_spec(candidates@[j].kind)
                    &&& forall|j: int|
                        0 <= j < i && usable(#[trigger] candidates@[j]) ==> rank_spec(
                            candidates@[i as int].kind,
                        ) < rank_spec(candidates@[j].kind)
                },
            },
        decreases candidates@.len() - k,
    {
        let c = &candidates[k];
        if c.supports_extensions {
            match compute_family(c.compute_families.as_slice()) {
                Some(q) => {
                    let rank = device_rank(c.kind);
                    let better = match best {
                        None => true,
                        Some(_) => rank < best_rank,
                    };
                    if better {
                        best = Some((k, q));
                        best_rank = rank;
                    }
                },
                None => {},
            }
        }
        k = k + 1;
    }
    best
}

/// The subgroup size the shader runs with: the one the driver reports, or 64
/// when it reports none.
pub fn subgroup_size(reported: Option<u32>) -> (r: u32)
    ensures
        r == match reported {
            Some(s) => s,
            None => 64u32,
        },
{
    match reported {
        Some(s) => s,
        None => 64,
    }
}

/// Workgroups dispatched to render one block, one subgroup each.
pub fn dispatch_groups(subgroup_size: u32) -> (r: u32)
    requires
        subgroup_size > 0,
    ensures
        r == DATA_BUFFER_SAMPLES / subgroup_size,
{
    DATA_BUFFER_SAMPLES / subgroup_size
}

/// Where channel `channel` lies in a rendered block: the channels follow one
/// another, `DATA_BUFFER_SAMPLES` samples each.
pub fn channel_range(channel: usize) -> (r: (usize, usize))
    requires
        channel < CHANNELS,
    ensures
        r.0 == DATA_BUFFER_SAMPLES * channel,
        r.1 == DATA_BUFFER_SAMPLES * (channel + 1),
        r.1 <= DATA_BUFFER_SIZE,
{
    let samples = DATA_BUFFER_SAMPLES as usize;
    (samples * channel, samples * (channel + 1))
}

/// Blocks rendered and played before playback stops.
pub fn block_count() -> (r: u32)
    ensures
        r == 64,
{
    let data_length = DATA_BUFFER_SAMPLES * 64;
    data_length / DATA_BUFFER_SAMPLES
}

/// For block `k`: the data buffer rendered last, which goes to the audio
/// callback, and the command buffer that renders into the other one.
pub fn block_buffers(k: u32) -> (r: (usize, usize))
    ensures
        r.0 == k % 2,
        r.1 == (k + 1) % 2,
{
    ((k % 2) as usize, ((k % 2 + 1) % 2) as usize)
}

/// The shader's time parameter after a block: one block of samples later.
pub fn next_time(t: u32) -> (r: u32)
    requires
        t + DATA_BUFFER_SAMPLES <= u32::MAX,
    ensures
        r == t + DATA_BUFFER_SAMPLES,
{
    t + DATA_BUFFER_SAMPLES
}

/// What the audio callback got from the renderer.
#[derive(Clone, Copy, Debug, PartialEq, Eq, Structural)]
pub enum Delivery {
    /// A rendered block.
    Block,
    /// The end of the stream.
    EndOfStream,
}

/// What the audio callback does with a delivery.
#[derive(Clone, Copy, Debug, PartialEq, Eq, Structural)]
pub enum OutputAction {
    /// Copy each channel of the block to its port and tell the renderer.
    PlayAndAcknowledge,
    /// Play nothing more.
    Stop,
}

/// What the audio callback keeps between calls.
pub struct OutputState {
    /// Whether the end of the stream has been seen.
    pub finished: bool,
}

impl OutputState {
    /// The state before the first call: the stream is still running.
    pub fn new() -> (s: OutputState)
        ensures
            !s.finished,
    {
        OutputState { finished: false }
    }

    /// Whether the callback waits for a delivery: until the stream has ended.
    pub fn wants_delivery(&self) -> (r: bool)
        ensures
            r == !self.finished,
    {
        !self.finished
    }

    /// The callback's decision on a delivery: a block is played, the end of
    /// the stream stops playback for good.
    pub fn receive(&mut self, delivery: Delivery) -> (a: OutputAction)
        requires
            !old(self).finished,
        ensures
            delivery == Delivery::Block ==> a == OutputAction::PlayAndAcknowledge
                && !final(self).finished,
            delivery == Delivery::EndOfStream ==> a == OutputAction::Stop && final(self).finished,
    {
        match delivery {
            Delivery::Block => OutputAction::PlayAndAcknowledge,
            Delivery::EndOfStream => {
                self.finished = true;
                OutputAction::Stop
            },
        }
    }
}

} // verus!
