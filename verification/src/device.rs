//! Choice of the physical device and queue family to render with.
//!
//! A device qualifies when it supports the required extensions and has a
//! queue family that can both draw graphics and present to the window
//! surface. Among qualifying devices the kind ranks them: discrete GPUs
//! first, then integrated, virtual, CPU and other devices; the first device
//! of the best rank wins, with its first suitable queue family.
use vstd::prelude::*;

verus! {

/// The kind of a physical device, as the driver reports it.
#[derive(Clone, Copy, Debug, PartialEq, Eq, Structural)]
pub enum PhysicalDeviceType {
    DiscreteGpu,
    IntegratedGpu,
    VirtualGpu,
    Cpu,
    Other,
    /// A kind this program does not know.
    Unknown,
}

/// What a queue family of a device offers.
#[derive(Clone, Copy, Debug, PartialEq, Eq, Structural)]
pub struct QueueFamilyInfo {
    /// The family's queues accept graphics commands.
    pub graphics: bool,
    /// The family's queues can present to the window surface.
    pub presentation: bool,
}

/// A physical device as the selection sees it.
#[derive(Clone, Debug)]
pub struct DeviceCandidate {
    pub supports_extensions: bool,
    pub device_type: PhysicalDeviceType,
    pub queue_families: Vec<QueueFamilyInfo>,
}

/// Preference of a device kind; lower is better.
pub open spec fn type_rank(t: PhysicalDeviceType) -> nat {
    match t {
        PhysicalDeviceType::DiscreteGpu => 0,
        PhysicalDeviceType::IntegratedGpu => 1,
        PhysicalDeviceType::VirtualGpu => 2,
        PhysicalDeviceType::Cpu => 3,
        PhysicalDeviceType::Other => 4,
        PhysicalDeviceType::Unknown => 5,
    }
}

/// Rank of a device kind, as used to order candidates.
pub fn device_type_rank(t: PhysicalDeviceType) -> (r: u8)
    ensures
        r == type_rank(t),
{
    match t {
        PhysicalDeviceType::DiscreteGpu => 0,
        PhysicalDeviceType::IntegratedGpu => 1,
        PhysicalDeviceType::VirtualGpu => 2,
        PhysicalDeviceType::Cpu => 3,
        PhysicalDeviceType::Other => 4,
        PhysicalDeviceType::Unknown => 5,
    }
}

/// A queue family that can draw and present.
pub open spec fn family_usable(f: QueueFamilyInfo) -> bool {
    f.graphics && f.presentation
}

/// `q` is the first usable family of `families`.
pub open spec fn is_first_usable(families: Seq<QueueFamilyInfo>, q: int) -> bool {
    &&& 0 <= q < families.len()
    &&& family_usable(families[q])
    &&& forall|k: int| 0 <= k < q ==> !family_usable(#[trigger] families[k])
}

/// Some family of `families` can draw and present.
pub open spec fn has_usable_family(families: Seq<QueueFamilyInfo>) -> bool {
    exists|k: int| 0 <= k < families.len() && family_usable(#[trigger] families[k])
}

/// The device can be used at all.
pub open spec fn device_usable(c: DeviceCandidate) -> bool {
    c.supports_extensions && has_usable_family(c.queue_families@)
}

/// `(i, q)` is the selection among `cs`: device `i` is usable, no usable
/// device ranks better, none before it ranks as well, and `q` is its first
/// usable queue family.
pub open spec fn is_selection(cs: Seq<DeviceCandidate>, i: int, q: int) -> bool {
    &&& 0 <= i < cs.len()
    &&& device_usable(cs[i])
    &&& is_first_usable(cs[i].queue_families@, q)
    &&& forall|j: int|
        0 <= j < cs.len() && #[trigger] device_usable(cs[j]) ==> type_rank(cs[i].device_type)
            <= type_rank(cs[j].device_type)
    &&& forall|j: int|
        0 <= j < i && #[trigger] device_usable(cs[j]) ==> type_rank(cs[i].device_type)
            < type_rank(cs[j].device_type)
}

/// Index of the first queue family of `families` that can draw and present.
pub fn first_usable_family(families: &[QueueFamilyInfo]) -> (r: Option<usize>)
    ensures
        match r {
            Some(q) => is_first_usable(families@, q as int),
            None => !has_usable_family(families@),
        },
{
    let mut k: usize = 0;
    while k < families.len()
        invariant
            0 <= k <= families.len(),
            forall|j: int| 0 <= j < k ==> !family_usable(#[trigger] families@[j]),
        decreases families.len() - k,
    {
        if families[k].graphics && families[k].presentation {
            return Some(k);
        }
        k = k + 1;
    }
    None
}

/// Picks the device and queue family to render with: among the devices that
/// support the extensions and have a family that draws and presents, the
/// first of the best kind, with its first such family. `None` when no device
/// qualifies.
pub fn pick_physical_device_and_queue(candidates: &[DeviceCandidate]) -> (r: Option<(usize, u32)>)
    requires
        forall|i: int|
            0 <= i < candidates.len() ==> #[trigger] candidates@[i].queue_families.len()
                <= u32::MAX,
    ensures
        match r {
            Some((i, q)) => is_selection(candidates@, i as int, q as int),
            None => forall|j: int| 0 <= j < candidates.len() ==> !#[trigger] device_usable(candidates@[j]),
        },
{
    let ghost cs = candidates@;
    let mut best: Option<(usize, u32)> = None;
    let mut best_rank: u8 = 0;
    let mut i: usize = 0;
    while i < candidates.len()
        invariant
            cs == candidates@,
            0 <= i <= cs.len(),
            forall|j: int| 0 <= j < cs.len() ==> #[trigger] cs[j].queue_families.len() <= u32::MAX,
            match best {
                Some((b, q)) => {
                    &&& b < i
                    &&& device_usable(cs[b as int])
                    &&& is_first_usable(cs[b as int].queue_families@, q as int)
                    &&& best_rank == type_rank(cs[b as int].device_type)
                    &&& forall|j: int|
                        0 <= j < i && #[trigger] device_usable(cs[j]) ==> best_rank <= type_rank(
                            cs[j].device_type,
                        )
                    &&& forall|j: int|
                        0 <= j < b && #[trigger] device_usable(cs[j]) ==> best_rank < type_rank(
                            cs[j].device_type,
                        )
                },
                None => forall|j: int| 0 <= j < i ==> !#[trigger] device_usable(cs[j]),
            },
        decreases cs.len() - i,
    {
        let candidate = &candidates[i];
        if candidate.supports_extensions {
            match first_usable_family(candidate.queue_families.as_slice()) {
                Some(q) => {
                    assert(family_usable(cs[i as int].queue_families@[q as int]));
                    assert(device_usable(cs[i as int]));
                    assert(q < cs[i as int].queue_families.len() <= u32::MAX);
                    let rank = device_type_rank(candidate.device_type);
                    let better = match best {
                        Some(_) => rank < best_rank,
                        None => true,
                    };
                    if better {
                        best = Some((i, q as u32));
                        best_rank = rank;
                    }
                },
                None => {
                    assert(!device_usable(cs[i as int]));
                },
            }
        } else {
            assert(!device_usable(cs[i as int]));
        }
        i = i + 1;
    }
    best
}

} // verus!
