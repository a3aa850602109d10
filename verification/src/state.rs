//! The routing model: the declared, persistable state of the interface,
//! together with the channel allocator that picks destination slots for
//! newly added routes.
//!
//! Gains are held in hundredths of a decibel so that the whole model is
//! made of plain integers and booleans; the hardware shell converts to
//! and from its own floating-point decibel values at the boundary.

use vstd::prelude::*;
use crate::device::Device;

verus! {

/// A zero-based index into a device-reported ordered list of option
/// labels (sources or destinations).  The set of options is discovered
/// per device at runtime, so a stored index is only meaningful together
/// with the list it points into and must be bounds-checked at every
/// boundary.
pub type EnumIndex = usize;

/// Lower bound of a gain, in hundredths of a decibel (-128 dB).
pub const GAIN_MIN: i32 = -12800;

/// Upper bound of a gain, in hundredths of a decibel (+6 dB).
pub const GAIN_MAX: i32 = 600;

/// A single routing target belonging to a mixer entry.
#[derive(Clone, Copy, PartialEq, Eq, Structural, Debug)]
pub struct MixerDestination {
    /// Whether the destination side is a linked left/right pair.
    pub stereo: bool,
    /// Destination (mix-bus) index; the left one when `stereo`.
    pub dest: EnumIndex,
    /// Right destination index; meaningful only when `stereo`.
    pub dest_r: EnumIndex,
    /// Whether, when `stereo`, left and right are chosen independently.
    pub split: bool,
    /// Gain applied on this route, in hundredths of a decibel.
    pub gain: i32,
}

/// True at `i` when slots `i` and `i + 1` of the occupancy vector are
/// both free.
pub open spec fn false_pair_at(s: Seq<bool>, i: int) -> bool {
    0 <= i && i + 1 < s.len() && !s[i] && !s[i + 1]
}

/// Index of the first adjacent pair of free slots, if any.
pub open spec fn first_false_pair(s: Seq<bool>) -> Option<int>
    decreases s.len(),
{
    if s.len() < 2 {
        None
    } else if !s[0] && !s[1] {
        Some(0)
    } else {
        match first_false_pair(s.drop_first()) {
            Some(i) => Some(i + 1),
            None => None,
        }
    }
}

/// Index of the first free slot, if any.
pub open spec fn first_false(s: Seq<bool>) -> Option<int>
    decreases s.len(),
{
    if s.len() == 0 {
        None
    } else if !s[0] {
        Some(0)
    } else {
        match first_false(s.drop_first()) {
            Some(i) => Some(i + 1),
            None => None,
        }
    }
}

/// `first_false_pair` returns exactly the least index that starts a free
/// pair, and `None` exactly when no such index exists.
pub proof fn lemma_first_false_pair_characterization(s: Seq<bool>)
    ensures
        match first_false_pair(s) {
            Some(i) => false_pair_at(s, i) && forall|j: int| 0 <= j < i ==> !false_pair_at(s, j),
            None => forall|j: int| !false_pair_at(s, j),
        },
    decreases s.len(),
{
    if s.len() < 2 {
    } else if !s[0] && !s[1] {
    } else {
        lemma_first_false_pair_characterization(s.drop_first());
        assert(forall|j: int| false_pair_at(s, j) && j >= 1 ==> false_pair_at(s.drop_first(), j - 1));
    }
}

/// `first_false` returns exactly the least free index, and `None`
/// exactly when every slot is occupied.
pub proof fn lemma_first_false_characterization(s: Seq<bool>)
    ensures
        match first_false(s) {
            Some(i) => 0 <= i < s.len() && !s[i] && forall|j: int| 0 <= j < i ==> s[j],
            None => forall|j: int| 0 <= j < s.len() ==> s[j],
        },
    decreases s.len(),
{
    if s.len() == 0 {
    } else if !s[0] {
    } else {
        let t = s.drop_first();
        lemma_first_false_characterization(t);
        match first_false(t) {
            Some(i) => {
                assert(s[i + 1] == t[i]);
                assert(forall|j: int| 1 <= j < i + 1 ==> s[j] == t[j - 1]);
            },
            None => {
                assert(forall|j: int| 1 <= j < s.len() ==> s[j] == t[j - 1]);
            },
        }
    }
}

/// Given the occupancy of the destination-slot pool, find the start of
/// the first adjacent pair of free slots, scanning in ascending order.
pub fn find_false_pair(sl: &[bool]) -> (r: Option<usize>)
    ensures
        r matches Some(i) ==> first_false_pair(sl@) == Some(i as int),
        r is None ==> first_false_pair(sl@) is None,
{
    let n = sl.len();
    if n < 2 {
        proof {
            lemma_first_false_pair_characterization(sl@);
        }
        return None;
    }
    let mut i: usize = 0;
    while i < n - 1
        invariant
            n == sl@.len(),
            2 <= n,
            i <= n - 1,
            forall|j: int| 0 <= j < i ==> !false_pair_at(sl@, j),
        decreases n - i,
    {
        if !sl[i] && !sl[i + 1] {
            proof {
                lemma_first_false_pair_characterization(sl@);
                assert(false_pair_at(sl@, i as int));
            }
            return Some(i);
        }
        i = i + 1;
    }
    proof {
        lemma_first_false_pair_characterization(sl@);
    }
    None
}

/// Find the first free slot of the occupancy vector, scanning in
/// ascending order.
pub fn find_first_free(used: &Vec<bool>) -> (r: Option<usize>)
    ensures
        r matches Some(i) ==> first_false(used@) == Some(i as int),
        r is None ==> first_false(used@) is None,
{
    let n = used.len();
    let mut i: usize = 0;
    while i < n
        invariant
            n == used@.len(),
            i <= n,
            forall|j: int| 0 <= j < i ==> used@[j],
        decreases n - i,
    {
        if !used[i] {
            proof {
                lemma_first_false_characterization(used@);
            }
            return Some(i);
        }
        i = i + 1;
    }
    proof {
        lemma_first_false_characterization(used@);
    }
    None
}

/// A user-created routing node: one source (mono or stereo) feeding an
/// ordered list of destinations.
#[derive(Debug, PartialEq)]
pub struct MixerEntry {
    /// Free-text label.
    pub name: String,
    /// Whether the entry currently consumes mixer-channel capacity.
    pub enabled: bool,
    /// Whether the source side is a linked left/right pair.
    pub stereo: bool,
    /// Whether, when `stereo`, left and right sources are chosen
    /// independently.
    pub split: bool,
    /// Source index; the left one when `stereo`.
    pub source: EnumIndex,
    /// Right source index; meaningful only when `stereo`.
    pub source_r: EnumIndex,
    /// The routing targets of this entry.
    pub dests: Vec<MixerDestination>,
}

impl MixerEntry {
    /// Whether destination slot `s` is already used by one of the
    /// entry's destinations; a stereo destination occupies two slots.
    pub open spec fn occupies(&self, s: int) -> bool {
        exists|d: int|
            0 <= d < self.dests@.len() && (self.dests@[d].dest == s || (self.dests@[d].stereo
                && self.dests@[d].dest_r == s))
    }

    /// The occupancy vector of an `n`-slot destination pool.
    pub open spec fn occupancy_seq(&self, n: int) -> Seq<bool> {
        Seq::new(n as nat, |s: int| self.occupies(s))
    }

    /// Like `occupies`, but counting only the first `k` destinations.
    spec fn occupies_prefix(&self, s: int, k: int) -> bool {
        exists|d: int|
            0 <= d < k && (self.dests@[d].dest == s || (self.dests@[d].stereo && self.dests@[d].dest_r
                == s))
    }

    /// Compute the occupancy of an `n_slots`-slot destination pool:
    /// one flag per mix bus, true when some destination of this entry
    /// already uses it.  Out-of-range indices held by stale
    /// destinations occupy no slot.
    pub fn dest_occupancy(&self, n_slots: usize) -> (used: Vec<bool>)
        ensures
            used@ == self.occupancy_seq(n_slots as int),
    {
        let mut used: Vec<bool> = vec![false; n_slots];
        let mut d: usize = 0;
        while d < self.dests.len()
            invariant
                used@.len() == n_slots,
                d <= self.dests@.len(),
                forall|s: int| 0 <= s < n_slots ==> used@[s] == self.occupies_prefix(s, d as int),
            decreases self.dests@.len() - d,
        {
            let dst = self.dests[d];
            if dst.dest < n_slots {
                used[dst.dest] = true;
            }
            if dst.stereo && dst.dest_r < n_slots {
                used[dst.dest_r] = true;
            }
            proof {
                assert forall|s: int| 0 <= s < n_slots implies used@[s] == self.occupies_prefix(
                    s,
                    d + 1,
                ) by {
                    if used@[s] {
                        assert(self.occupies_prefix(s, d + 1));
                    }
                    if self.occupies_prefix(s, d + 1) {
                        let w = choose|w: int|
                            0 <= w < d + 1 && (self.dests@[w].dest == s || (self.dests@[w].stereo
                                && self.dests@[w].dest_r == s));
                        if w < d {
                            assert(self.occupies_prefix(s, d as int));
                        }
                    }
                }
            }
            d = d + 1;
        }
        proof {
            assert forall|s: int| 0 <= s < n_slots implies used@[s] == self.occupies(s) by {
                assert(used@[s] == self.occupies_prefix(s, self.dests@.len() as int));
            }
            assert(used@ =~= self.occupancy_seq(n_slots as int));
        }
        used
    }
}

/// The destination that the allocator picks for a new route of entry
/// `e`, given an `n`-slot pool: the first free slot (mono) or the first
/// adjacent pair of free slots (stereo), falling back to slot 0 (and
/// its neighbour) when nothing is free.  The new destination inherits
/// the entry's source-side arity, is not split, and starts at 0 dB.
pub open spec fn allocated_dest(e: MixerEntry, n: int) -> MixerDestination {
    let occ = e.occupancy_seq(n);
    if e.stereo {
        match first_false_pair(occ) {
            Some(i) => MixerDestination {
                stereo: true,
                dest: i as usize,
                dest_r: (i + 1) as usize,
                split: false,
                gain: 0,
            },
            None => MixerDestination { stereo: true, dest: 0, dest_r: 1, split: false, gain: 0 },
        }
    } else {
        match first_false(occ) {
            Some(i) => MixerDestination {
                stereo: false,
                dest: i as usize,
                dest_r: if i + 1 < n {
                    (i + 1) as usize
                } else {
                    (n - 1) as usize
                },
                split: false,
                gain: 0,
            },
            None => MixerDestination { stereo: false, dest: 0, dest_r: 1, split: false, gain: 0 },
        }
    }
}

impl MixerEntry {
    /// Append a new destination chosen by the channel allocator: the
    /// first free slot (mono source) or first free adjacent pair
    /// (stereo source) of the device's mix-bus pool, falling back to
    /// slot 0 when the pool is exhausted.  The allocation is advisory:
    /// nothing is re-validated afterwards, and the user may reassign
    /// destinations freely, so a fallback is not an error.
    pub fn add_dest(&mut self, device: &Device)
        requires
            device.wf(),
        ensures
            final(self).name == old(self).name,
            final(self).enabled == old(self).enabled,
            final(self).stereo == old(self).stereo,
            final(self).split == old(self).split,
            final(self).source == old(self).source,
            final(self).source_r == old(self).source_r,
            final(self).dests@ == old(self).dests@.push(
                allocated_dest(*old(self), device.mixer_destinations@.len() as int),
            ),
    {
        let n = device.mixer_destinations.len();
        let used = self.dest_occupancy(n);
        let d = if self.stereo {
            match find_false_pair(used.as_slice()) {
                Some(i) => {
                    proof {
                        lemma_first_false_pair_characterization(used@);
                    }
                    MixerDestination { stereo: true, dest: i, dest_r: i + 1, split: false, gain: 0 }
                },
                None => MixerDestination {
                    stereo: true,
                    dest: 0,
                    dest_r: 1,
                    split: false,
                    gain: 0,
                },
            }
        } else {
            match find_first_free(&used) {
                Some(i) => {
                    proof {
                        lemma_first_false_characterization(used@);
                    }
                    MixerDestination {
                        stereo: false,
                        dest: i,
                        dest_r: if i + 1 < n {
                            i + 1
                        } else {
                            n - 1
                        },
                        split: false,
                        gain: 0,
                    }
                },
                None => MixerDestination {
                    stereo: false,
                    dest: 0,
                    dest_r: 1,
                    split: false,
                    gain: 0,
                },
            }
        };
        self.dests.push(d);
    }

    /// Whether a new destination of the given arity would collide with
    /// an existing one: the pool has no free slot (mono) or no free
    /// adjacent pair (stereo) left, so [`Self::add_dest`] would fall
    /// back to slot 0.  The allocator still degrades gracefully; this
    /// signal lets the caller warn the user about the collision.
    pub fn allocation_exhausted(&self, device: &Device, stereo: bool) -> (r: bool)
        requires
            device.wf(),
        ensures
            r <==> (if stereo {
                first_false_pair(self.occupancy_seq(device.mixer_destinations@.len() as int))
                    is None
            } else {
                first_false(self.occupancy_seq(device.mixer_destinations@.len() as int)) is None
            }),
    {
        let used = self.dest_occupancy(device.mixer_destinations.len());
        if stereo {
            find_false_pair(used.as_slice()).is_none()
        } else {
            find_first_free(&used).is_none()
        }
    }

    /// A fresh entry: mono, enabled, named "Unnamed", with sources 0
    /// and 1 and one destination picked by the allocator (slot 0 of an
    /// empty pool).
    pub fn new(device: &Device) -> (e: MixerEntry)
        requires
            device.wf(),
        ensures
            e.name@ == "Unnamed"@,
            e.enabled,
            !e.stereo,
            !e.split,
            e.source == 0,
            e.source_r == 1,
            e.dests@.len() == 1,
            e.dests@[0] == (MixerDestination {
                stereo: false,
                dest: 0,
                dest_r: 1,
                split: false,
                gain: 0,
            }),
    {
        let mut e = MixerEntry {
            name: "Unnamed".to_owned(),
            enabled: true,
            stereo: false,
            split: false,
            source: 0,
            source_r: 1,
            dests: Vec::new(),
        };
        let ghost e0 = e;
        e.add_dest(device);
        proof {
            let n = device.mixer_destinations@.len() as int;
            let occ = e0.occupancy_seq(n);
            assert(!occ[0]);
            assert(first_false(occ) == Some(0int));
        }
        e
    }
}

/// One of the fixed set of physical/digital outputs, with its own
/// mute, gain and (possibly split) left/right source pair.
#[derive(Debug, PartialEq)]
pub struct MixerOutput {
    /// Display name of the output ("Monitor", "Headphone", ...).
    pub name: String,
    /// Output gain, in hundredths of a decibel.
    pub gain: i32,
    /// Whether the output is muted.
    pub mute: bool,
    /// Left and right source indices.
    pub source: (EnumIndex, EnumIndex),
    /// Whether left and right sources are chosen independently.
    pub split: bool,
}

impl Default for MixerOutput {
    /// An unnamed, unmuted output at 0 dB fed from source 0.
    fn default() -> (r: MixerOutput)
        ensures
            r.name@.len() == 0,
            r.gain == 0,
            !r.mute,
            r.source == (0usize, 0usize),
            !r.split,
    {
        MixerOutput { name: String::new(), gain: 0, mute: false, source: (0, 0), split: false }
    }
}

/// The number of physical outputs the device exposes.
pub const OUTPUT_COUNT: usize = 3;

/// The total mixer-channel budget: an enabled mono entry consumes one
/// channel, an enabled stereo entry two, and their sum may never exceed
/// this many channels.
pub const CHANNEL_BUDGET: usize = 18;

/// The routing model: the entire declared, persistable state of the
/// interface.  It owns no hardware handle; every selection is an index
/// into one of the device's option lists.
#[derive(Debug, PartialEq)]
pub struct AppState {
    /// One entry per capture channel: `None` for "Off", or the index
    /// of the source feeding it.
    pub capture: Vec<Option<EnumIndex>>,
    /// The user-created routing nodes.
    pub mixer_entries: Vec<MixerEntry>,
    /// Global playback gain, in hundredths of a decibel.
    pub global_gain: i32,
    /// Global mute.
    pub global_mute: bool,
    /// High-impedance switch of hardware input 1.
    pub hi_z_1: bool,
    /// High-impedance switch of hardware input 2.
    pub hi_z_2: bool,
    /// The fixed set of physical outputs.
    pub outputs: [MixerOutput; 3],
}

/// Whether an output has all its fields at their default values.
pub open spec fn is_default_output(o: MixerOutput) -> bool {
    &&& o.name@.len() == 0
    &&& o.gain == 0
    &&& !o.mute
    &&& o.source == (0usize, 0usize)
    &&& !o.split
}

impl Default for AppState {
    /// The model every absent persisted field falls back to: nothing
    /// captured, no entries, everything at 0 dB and unmuted.
    fn default() -> (r: AppState)
        ensures
            r.capture@.len() == 0,
            r.mixer_entries@.len() == 0,
            r.global_gain == 0,
            !r.global_mute,
            !r.hi_z_1,
            !r.hi_z_2,
            forall|i: int| 0 <= i < 3 ==> is_default_output(r.outputs@[i]),
    {
        let outputs = [
            MixerOutput { name: String::new(), gain: 0, mute: false, source: (0, 0), split: false },
            MixerOutput { name: String::new(), gain: 0, mute: false, source: (0, 0), split: false },
            MixerOutput { name: String::new(), gain: 0, mute: false, source: (0, 0), split: false },
        ];
        AppState {
            capture: Vec::new(),
            mixer_entries: Vec::new(),
            global_gain: 0,
            global_mute: false,
            hi_z_1: false,
            hi_z_2: false,
            outputs,
        }
    }
}

/// The default capture assignment: capture channel `i` records source
/// `i`.
pub fn capture_default(device: &Device) -> (v: Vec<Option<EnumIndex>>)
    ensures
        v@.len() == device.audio_sources@.len(),
        forall|i: int| 0 <= i < v@.len() ==> v@[i] == Some(i as usize),
{
    let n = device.audio_sources.len();
    let mut v: Vec<Option<EnumIndex>> = Vec::new();
    let mut i: usize = 0;
    while i < n
        invariant
            i <= n,
            v@.len() == i,
            forall|j: int| 0 <= j < i ==> v@[j] == Some(j as usize),
        decreases n - i,
    {
        v.push(Some(i));
        i = i + 1;
    }
    v
}

impl AppState {
    /// The state a fresh session starts from when no persisted state
    /// exists: every capture channel records its own source, no mixer
    /// entries, everything at 0 dB and unmuted, and the three physical
    /// outputs fed from the first joined source pair.
    pub fn default_for(device: &Device) -> (s: AppState)
        ensures
            s.capture@.len() == device.audio_sources@.len(),
            forall|i: int| 0 <= i < s.capture@.len() ==> s.capture@[i] == Some(i as usize),
            s.mixer_entries@.len() == 0,
            s.global_gain == 0,
            !s.global_mute,
            !s.hi_z_1,
            !s.hi_z_2,
            s.outputs@[0].name@ == "Monitor"@,
            s.outputs@[1].name@ == "Headphone"@,
            s.outputs@[2].name@ == "SPDIF"@,
            forall|i: int|
                0 <= i < 3 ==> (#[trigger] s.outputs@[i]).gain == 0 && !s.outputs@[i].mute
                    && s.outputs@[i].source == (0usize, 1usize) && !s.outputs@[i].split,
    {
        let outputs = [
            MixerOutput {
                name: "Monitor".to_owned(),
                gain: 0,
                mute: false,
                source: (0, 1),
                split: false,
            },
            MixerOutput {
                name: "Headphone".to_owned(),
                gain: 0,
                mute: false,
                source: (0, 1),
                split: false,
            },
            MixerOutput {
                name: "SPDIF".to_owned(),
                gain: 0,
                mute: false,
                source: (0, 1),
                split: false,
            },
        ];
        AppState {
            capture: capture_default(device),
            mixer_entries: Vec::new(),
            global_gain: 0,
            global_mute: false,
            hi_z_1: false,
            hi_z_2: false,
            outputs,
        }
    }
}

/// Mixer channels consumed by the entries: 1 per enabled mono entry, 2
/// per enabled stereo entry.
pub open spec fn channels_used(entries: Seq<MixerEntry>) -> int
    decreases entries.len(),
{
    if entries.len() == 0 {
        0
    } else {
        channels_used(entries.drop_last()) + if entries.last().enabled {
            if entries.last().stereo {
                2int
            } else {
                1int
            }
        } else {
            0int
        }
    }
}

proof fn lemma_channels_used_nonneg(entries: Seq<MixerEntry>)
    ensures
        channels_used(entries) >= 0,
    decreases entries.len(),
{
    if entries.len() > 0 {
        lemma_channels_used_nonneg(entries.drop_last());
    }
}

impl AppState {
    /// How many of the [`CHANNEL_BUDGET`] mixer channels are still
    /// free, zero when the enabled entries already consume the whole
    /// budget or more.
    pub fn remaining_channels(&self) -> (r: usize)
        ensures
            r == if channels_used(self.mixer_entries@) <= CHANNEL_BUDGET as int {
                CHANNEL_BUDGET as int - channels_used(self.mixer_entries@)
            } else {
                0int
            },
    {
        let mut used: usize = 0;
        let mut i: usize = 0;
        let n = self.mixer_entries.len();
        while i < n
            invariant
                i <= n,
                n == self.mixer_entries@.len(),
                used == if channels_used(self.mixer_entries@.take(i as int)) <= CHANNEL_BUDGET as int {
                    channels_used(self.mixer_entries@.take(i as int))
                } else {
                    CHANNEL_BUDGET as int + 1
                },
                used <= CHANNEL_BUDGET + 1,
            decreases n - i,
        {
            proof {
                lemma_channels_used_nonneg(self.mixer_entries@.take(i as int));
                assert(self.mixer_entries@.take(i + 1).drop_last() =~= self.mixer_entries@.take(
                    i as int,
                ));
                assert(self.mixer_entries@.take(i + 1).last() == self.mixer_entries@[i as int]);
            }
            let e = &self.mixer_entries[i];
            let cost: usize = if e.enabled {
                if e.stereo {
                    2
                } else {
                    1
                }
            } else {
                0
            };
            used = if used + cost > CHANNEL_BUDGET {
                CHANNEL_BUDGET + 1
            } else {
                used + cost
            };
            i = i + 1;
        }
        proof {
            assert(self.mixer_entries@.take(n as int) =~= self.mixer_entries@);
        }
        if used > CHANNEL_BUDGET {
            0
        } else {
            CHANNEL_BUDGET - used
        }
    }
}

/// Clamp a stored index to the nearest valid index of a list of `len`
/// options.
pub open spec fn clamp_index_spec(i: int, len: int) -> int {
    if i < len {
        i
    } else {
        len - 1
    }
}

/// Clamp a stored index to the nearest valid index; the recovery for a
/// persisted selection that is out of range after a device or firmware
/// change.
pub fn clamp_index(i: EnumIndex, len: usize) -> (r: EnumIndex)
    requires
        len >= 1,
    ensures
        r as int == clamp_index_spec(i as int, len as int),
{
    if i < len {
        i
    } else {
        len - 1
    }
}

/// The effective (left, right) indices of a joined (non-split) stereo
/// pair whose stored left index is `left`, selecting from a list of
/// `len` options: the right channel is always the slot after the left
/// one, and the left index is pulled down so that this neighbour
/// exists.
pub open spec fn joined_pair_spec(left: int, len: int) -> (int, int)
    recommends
        len >= 2,
{
    let l = if left >= len - 1 {
        len - 2
    } else {
        left
    };
    (l, l + 1)
}

/// Clamp a joined stereo pair so that a valid right-adjacent index
/// exists; applied whenever a joined pair is displayed, edited or
/// rendered into canonical keys.
pub fn joined_pair(left: EnumIndex, len: usize) -> (p: (EnumIndex, EnumIndex))
    requires
        len >= 2,
    ensures
        p.0 as int == joined_pair_spec(left as int, len as int).0,
        p.1 as int == joined_pair_spec(left as int, len as int).1,
{
    let l = if left >= len - 1 {
        len - 2
    } else {
        left
    };
    (l, l + 1)
}

/// The clamping law for joined pairs: the effective left index always
/// leaves room for its right neighbour, the right channel is exactly
/// that neighbour, and a left index stored on the very last option is
/// pulled down by one — all before any canonical key is produced.
pub proof fn lemma_joined_pair_clamped(left: int, len: int)
    requires
        0 <= left,
        len >= 2,
    ensures
        ({
            let p = joined_pair_spec(left, len);
            &&& 0 <= p.0 < len - 1
            &&& p.1 == p.0 + 1
            &&& p.1 <= len - 1
            &&& left < len - 1 ==> p.0 == left
            &&& left >= len - 1 ==> p.0 == len - 2 && p.1 == len - 1
        }),
{
}

/// The mathematical value of a [`MixerEntry`].
pub struct MixerEntryView {
    /// The label as a character sequence.
    pub name: Seq<char>,
    /// See [`MixerEntry::enabled`].
    pub enabled: bool,
    /// See [`MixerEntry::stereo`].
    pub stereo: bool,
    /// See [`MixerEntry::split`].
    pub split: bool,
    /// See [`MixerEntry::source`].
    pub source: EnumIndex,
    /// See [`MixerEntry::source_r`].
    pub source_r: EnumIndex,
    /// The destinations as a sequence.
    pub dests: Seq<MixerDestination>,
}

impl View for MixerEntry {
    type V = MixerEntryView;

    open spec fn view(&self) -> MixerEntryView {
        MixerEntryView {
            name: self.name@,
            enabled: self.enabled,
            stereo: self.stereo,
            split: self.split,
            source: self.source,
            source_r: self.source_r,
            dests: self.dests@,
        }
    }
}

/// The mathematical value of a [`MixerOutput`].
pub struct MixerOutputView {
    /// The display name as a character sequence.
    pub name: Seq<char>,
    /// See [`MixerOutput::gain`].
    pub gain: i32,
    /// See [`MixerOutput::mute`].
    pub mute: bool,
    /// See [`MixerOutput::source`].
    pub source: (EnumIndex, EnumIndex),
    /// See [`MixerOutput::split`].
    pub split: bool,
}

impl View for MixerOutput {
    type V = MixerOutputView;

    open spec fn view(&self) -> MixerOutputView {
        MixerOutputView {
            name: self.name@,
            gain: self.gain,
            mute: self.mute,
            source: self.source,
            split: self.split,
        }
    }
}

/// The mathematical value of an [`AppState`].
pub struct AppStateView {
    /// See [`AppState::capture`].
    pub capture: Seq<Option<EnumIndex>>,
    /// The entries' values, in order.
    pub mixer_entries: Seq<MixerEntryView>,
    /// See [`AppState::global_gain`].
    pub global_gain: i32,
    /// See [`AppState::global_mute`].
    pub global_mute: bool,
    /// See [`AppState::hi_z_1`].
    pub hi_z_1: bool,
    /// See [`AppState::hi_z_2`].
    pub hi_z_2: bool,
    /// The outputs' values, in order.
    pub outputs: Seq<MixerOutputView>,
}

impl View for AppState {
    type V = AppStateView;

    open spec fn view(&self) -> AppStateView {
        AppStateView {
            capture: self.capture@,
            mixer_entries: Seq::new(self.mixer_entries@.len(), |i: int| self.mixer_entries@[i]@),
            global_gain: self.global_gain,
            global_mute: self.global_mute,
            hi_z_1: self.hi_z_1,
            hi_z_2: self.hi_z_2,
            outputs: Seq::new(self.outputs@.len(), |i: int| self.outputs@[i]@),
        }
    }
}

} // verus!
