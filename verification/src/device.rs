//! The capability catalog and the canonical control state.
//!
//! [`Device`] holds the per-device option lists discovered at connection
//! time; discovery itself (enumerating hardware controls and reading
//! their option labels) is done by the unverified shell, which hands the
//! plain label lists to [`Device::new`].
//!
//! [`DeviceState`] is the canonical keyed form that both the declared
//! routing model and the live hardware state are normalized into, so
//! that reconciliation is a structural comparison per key.  The shell
//! maps each [`ControlKey`] to the name of the hardware control element
//! backing it; this crate only ever compares keys and values.

use vstd::prelude::*;
use crate::state::EnumIndex;

verus! {

/// The option lists reported by the connected device.  All stored
/// [`crate::state::EnumIndex`] values are indices into one of these
/// lists.
#[derive(Debug)]
pub struct Device {
    /// Options selectable for a capture slot.
    pub capture_sources: Vec<String>,
    /// Options selectable as an audio source for mixer entries and
    /// physical outputs.
    pub audio_sources: Vec<String>,
    /// Mix buses that a mixer entry can send audio to.
    pub mixer_destinations: Vec<String>,
}

impl Device {
    /// A usable catalog: enough sources and destinations for a stereo
    /// pair to exist on either side.
    pub open spec fn wf(&self) -> bool {
        &&& self.audio_sources@.len() >= 2
        &&& self.mixer_destinations@.len() >= 2
    }

    /// Build the catalog from the label lists the shell discovered.
    /// Returns `None` when the reported lists are too short to route
    /// anything, which indicates an unsupported device revision.
    pub fn new(
        capture_sources: Vec<String>,
        audio_sources: Vec<String>,
        mixer_destinations: Vec<String>,
    ) -> (r: Option<Device>)
        ensures
            match r {
                Some(d) => {
                    &&& d.wf()
                    &&& d.capture_sources@ == capture_sources@
                    &&& d.audio_sources@ == audio_sources@
                    &&& d.mixer_destinations@ == mixer_destinations@
                },
                None => audio_sources@.len() < 2 || mixer_destinations@.len() < 2,
            },
            r is Some <==> audio_sources@.len() >= 2 && mixer_destinations@.len() >= 2,
    {
        if audio_sources.len() >= 2 && mixer_destinations.len() >= 2 {
            Some(Device { capture_sources, audio_sources, mixer_destinations })
        } else {
            None
        }
    }
}

/// The value of one hardware control element: either the current index
/// of an enumerated selector, or a continuous control with a gain (in
/// hundredths of a decibel) and a mute switch.
#[derive(Clone, Copy, PartialEq, Eq, Structural, Debug)]
pub enum ElemValue {
    /// An enumerated selector's current index.
    Enum(EnumIndex),
    /// A continuous control: gain plus mute switch.
    Knob {
        /// Gain in hundredths of a decibel.
        db: i32,
        /// Whether the control is muted.
        muted: bool,
    },
}

/// A canonical control key, derived deterministically from structural
/// position in the routing model.  The unverified shell translates each
/// key to the device's own control-element name; both the declared and
/// the live state use the same keys, so a diff is per-key equality.
#[derive(Clone, Copy, PartialEq, Eq, Structural, Debug)]
pub enum ControlKey {
    /// The source selector of one capture channel.
    CaptureSource {
        /// Capture channel index.
        slot: usize,
    },
    /// The gain of the route from one audio source into one mix bus.
    RouteGain {
        /// Audio-source index.
        source: usize,
        /// Mix-bus index.
        mix: usize,
    },
    /// The source selector of one side of a physical output.
    OutputSource {
        /// Output index.
        output: usize,
        /// False for the left channel, true for the right one.
        right: bool,
    },
    /// The gain/mute control of a physical output.
    OutputKnob {
        /// Output index.
        output: usize,
    },
    /// The global playback gain/mute control.
    GlobalKnob,
    /// The high-impedance switch of one hardware input.
    HiZ {
        /// Hardware input index.
        input: usize,
    },
}

/// The mapping that a sequence of key/value pairs builds up when
/// inserted in order: a later pair for the same key overwrites an
/// earlier one.
pub open spec fn map_of_pairs(s: Seq<(ControlKey, ElemValue)>) -> Map<ControlKey, ElemValue>
    decreases s.len(),
{
    if s.len() == 0 {
        Map::empty()
    } else {
        map_of_pairs(s.drop_last()).insert(s.last().0, s.last().1)
    }
}

/// No key appears twice.
pub open spec fn unique_keys(s: Seq<(ControlKey, ElemValue)>) -> bool {
    forall|i: int, j: int| 0 <= i < j < s.len() ==> s[i].0 != s[j].0
}

/// A key is in the built map exactly when some pair carries it.
pub proof fn lemma_map_of_pairs_dom(s: Seq<(ControlKey, ElemValue)>)
    ensures
        forall|k: ControlKey|
            map_of_pairs(s).dom().contains(k) <==> exists|i: int| 0 <= i < s.len() && s[i].0 == k,
    decreases s.len(),
{
    if s.len() > 0 {
        lemma_map_of_pairs_dom(s.drop_last());
        assert forall|k: ControlKey| map_of_pairs(s).dom().contains(k) implies exists|i: int|
            0 <= i < s.len() && s[i].0 == k by {
            if s.last().0 == k {
                assert(s[s.len() - 1].0 == k);
            } else {
                assert(map_of_pairs(s.drop_last()).dom().contains(k));
                let i = choose|i: int| 0 <= i < s.drop_last().len() && s.drop_last()[i].0 == k;
                assert(s[i].0 == k);
            }
        }
        assert forall|k: ControlKey| (exists|i: int| 0 <= i < s.len() && s[i].0 == k) implies
            map_of_pairs(s).dom().contains(k) by {
            let i = choose|i: int| 0 <= i < s.len() && s[i].0 == k;
            if i < s.len() - 1 {
                assert(s.drop_last()[i].0 == k);
                assert(map_of_pairs(s.drop_last()).dom().contains(k));
            } else {
                assert(s.last().0 == k);
            }
        }
    }
}

/// With unique keys, the built map sends each pair's key to its value.
pub proof fn lemma_map_of_pairs_index(s: Seq<(ControlKey, ElemValue)>, i: int)
    requires
        unique_keys(s),
        0 <= i < s.len(),
    ensures
        map_of_pairs(s).dom().contains(s[i].0),
        map_of_pairs(s)[s[i].0] == s[i].1,
    decreases s.len(),
{
    if i == s.len() - 1 {
    } else {
        assert(unique_keys(s.drop_last()));
        assert(s.drop_last()[i] == s[i]);
        lemma_map_of_pairs_index(s.drop_last(), i);
        assert(s[i].0 != s.last().0);
    }
}

/// Updating the pair that holds a key is, on the built map, an insert
/// of that key.
proof fn lemma_map_of_pairs_update(
    s: Seq<(ControlKey, ElemValue)>,
    i: int,
    k: ControlKey,
    v: ElemValue,
)
    requires
        unique_keys(s),
        0 <= i < s.len(),
        s[i].0 == k,
    ensures
        map_of_pairs(s.update(i, (k, v))) == map_of_pairs(s).insert(k, v),
    decreases s.len(),
{
    let t = s.update(i, (k, v));
    if i == s.len() - 1 {
        assert(t.drop_last() =~= s.drop_last());
        assert(t.last() == (k, v));
        assert(map_of_pairs(s).insert(k, v) =~= map_of_pairs(s.drop_last()).insert(k, v));
    } else {
        assert(unique_keys(s.drop_last()));
        assert(s.drop_last()[i] == s[i]);
        lemma_map_of_pairs_update(s.drop_last(), i, k, v);
        assert(t.drop_last() =~= s.drop_last().update(i, (k, v)));
        assert(t.last() == s.last());
        assert(s.last().0 != k);
        assert(map_of_pairs(t) =~= map_of_pairs(s).insert(k, v));
    }
}

/// The canonical state: a mapping from control key to control value,
/// built fresh on each reconciliation pass from either the routing
/// model or a live read of the device, and never persisted.
#[derive(Debug, PartialEq)]
pub struct DeviceState {
    entries: Vec<(ControlKey, ElemValue)>,
}

impl View for DeviceState {
    type V = Map<ControlKey, ElemValue>;

    closed spec fn view(&self) -> Map<ControlKey, ElemValue> {
        map_of_pairs(self.entries@)
    }
}

impl DeviceState {
    /// Each key is held by at most one stored pair.
    pub closed spec fn wf(&self) -> bool {
        unique_keys(self.entries@)
    }

    /// The empty canonical state.
    pub fn new() -> (r: DeviceState)
        ensures
            r.wf(),
            r@ == Map::<ControlKey, ElemValue>::empty(),
    {
        DeviceState { entries: Vec::new() }
    }

    /// Set the value of a key, overwriting an earlier value if one is
    /// present.
    pub fn insert(&mut self, key: ControlKey, value: ElemValue)
        requires
            old(self).wf(),
        ensures
            final(self).wf(),
            final(self)@ == old(self)@.insert(key, value),
    {
        let n = self.entries.len();
        let mut i: usize = 0;
        while i < n
            invariant
                self.entries@ == old(self).entries@,
                n == self.entries@.len(),
                i <= n,
                forall|j: int| 0 <= j < i ==> self.entries@[j].0 != key,
                unique_keys(self.entries@),
            decreases n - i,
        {
            if self.entries[i].0 == key {
                proof {
                    lemma_map_of_pairs_update(self.entries@, i as int, key, value);
                }
                self.entries[i] = (key, value);
                proof {
                    assert(unique_keys(self.entries@));
                }
                return ;
            }
            i = i + 1;
        }
        proof {
            let s = self.entries@;
            assert(s.push((key, value)).drop_last() =~= s);
        }
        self.entries.push((key, value));
    }

    /// Look the value of a key up.
    pub fn get(&self, key: ControlKey) -> (r: Option<ElemValue>)
        requires
            self.wf(),
        ensures
            match r {
                Some(v) => self@.dom().contains(key) && self@[key] == v,
                None => !self@.dom().contains(key),
            },
    {
        let n = self.entries.len();
        let mut i: usize = 0;
        while i < n
            invariant
                n == self.entries@.len(),
                i <= n,
                forall|j: int| 0 <= j < i ==> self.entries@[j].0 != key,
                unique_keys(self.entries@),
            decreases n - i,
        {
            if self.entries[i].0 == key {
                proof {
                    lemma_map_of_pairs_index(self.entries@, i as int);
                }
                return Some(self.entries[i].1);
            }
            i = i + 1;
        }
        proof {
            lemma_map_of_pairs_dom(self.entries@);
        }
        None
    }
}

/// The keys present in both states whose values differ: exactly the
/// controls a reconciliation pass must write.
pub open spec fn diff_keys(
    a: Map<ControlKey, ElemValue>,
    b: Map<ControlKey, ElemValue>,
) -> Set<ControlKey> {
    Set::new(|k: ControlKey| a.dom().contains(k) && b.dom().contains(k) && a[k] != b[k])
}

impl DeviceState {
    /// The keys present in both `self` and `new` whose values differ,
    /// each listed once.
    pub fn diff(&self, new: &DeviceState) -> (r: Vec<ControlKey>)
        requires
            self.wf(),
            new.wf(),
        ensures
            forall|k: ControlKey| r@.contains(k) <==> diff_keys(self@, new@).contains(k),
            forall|i: int, j: int| 0 <= i < j < r@.len() ==> r@[i] != r@[j],
    {
        let n = self.entries.len();
        let mut r: Vec<ControlKey> = Vec::new();
        let mut i: usize = 0;
        while i < n
            invariant
                self.wf(),
                new.wf(),
                n == self.entries@.len(),
                i <= n,
                forall|k: ControlKey|
                    r@.contains(k) <==> exists|j: int|
                        0 <= j < i && self.entries@[j].0 == k && new@.dom().contains(k) && new@[k]
                            != #[trigger] self.entries@[j].1,
                forall|i1: int, i2: int| 0 <= i1 < i2 < r@.len() ==> r@[i1] != r@[i2],
            decreases n - i,
        {
            let ghost r0 = r@;
            let (k, v) = self.entries[i];
            match new.get(k) {
                Some(w) => {
                    if w != v {
                        proof {
                            if r@.contains(k) {
                                let j = choose|j: int|
                                    0 <= j < i && self.entries@[j].0 == k && new@.dom().contains(k)
                                        && new@[k] != self.entries@[j].1;
                                assert(false);
                            }
                        }
                        r.push(k);
                        proof {
                            assert(r@[r@.len() - 1] == k);
                            assert(r@.contains(k));
                            assert forall|k2: ControlKey| r@.contains(k2) implies exists|j: int|
                                0 <= j < i + 1 && self.entries@[j].0 == k2 && new@.dom().contains(
                                k2,
                            ) && new@[k2] != self.entries@[j].1 by {
                                if k2 == k {
                                    assert(self.entries@[i as int].0 == k2 && new@.dom().contains(
                                        k2,
                                    ) && new@[k2] != self.entries@[i as int].1);
                                } else {
                                    let idx = choose|idx: int|
                                        0 <= idx < r@.len() && r@[idx] == k2;
                                    assert(r0[idx] == k2);
                                    assert(r0.contains(k2));
                                }
                            }
                            assert forall|k2: ControlKey|
                                (exists|j: int|
                                    0 <= j < i + 1 && self.entries@[j].0 == k2
                                        && new@.dom().contains(k2) && new@[k2]
                                        != #[trigger] self.entries@[j].1) implies r@.contains(
                                k2,
                            ) by {
                                let j = choose|j: int|
                                    0 <= j < i + 1 && self.entries@[j].0 == k2
                                        && new@.dom().contains(k2) && new@[k2]
                                        != self.entries@[j].1;
                                if j < i {
                                    assert(r0.contains(k2));
                                    let idx = choose|idx: int|
                                        0 <= idx < r0.len() && r0[idx] == k2;
                                    assert(r@[idx] == k2);
                                }
                            }
                        }
                    } else {
                        proof {
                            assert(new@[k] == v);
                            assert forall|k2: ControlKey|
                                (exists|j: int|
                                    0 <= j < i + 1 && self.entries@[j].0 == k2
                                        && new@.dom().contains(k2) && new@[k2]
                                        != #[trigger] self.entries@[j].1) implies r@.contains(
                                k2,
                            ) by {
                                let j = choose|j: int|
                                    0 <= j < i + 1 && self.entries@[j].0 == k2
                                        && new@.dom().contains(k2) && new@[k2]
                                        != self.entries@[j].1;
                                if j == i {
                                    assert(k2 == k);
                                    assert(false);
                                }
                            }
                        }
                    }
                },
                None => {
                    proof {
                        assert(!new@.dom().contains(k));
                        assert forall|k2: ControlKey|
                            (exists|j: int|
                                0 <= j < i + 1 && self.entries@[j].0 == k2 && new@.dom().contains(
                                    k2,
                                ) && new@[k2] != #[trigger] self.entries@[j].1) implies r@.contains(
                            k2,
                        ) by {
                            let j = choose|j: int|
                                0 <= j < i + 1 && self.entries@[j].0 == k2 && new@.dom().contains(
                                    k2,
                                ) && new@[k2] != self.entries@[j].1;
                            if j == i {
                                assert(k2 == k);
                                assert(false);
                            }
                        }
                    }
                },
            }
            i = i + 1;
        }
        proof {
            lemma_map_of_pairs_dom(self.entries@);
            assert forall|k: ControlKey|
                r@.contains(k) <==> diff_keys(self@, new@).contains(k) by {
                if r@.contains(k) {
                    let j = choose|j: int|
                        0 <= j < n && self.entries@[j].0 == k && new@.dom().contains(k) && new@[k]
                            != self.entries@[j].1;
                    lemma_map_of_pairs_index(self.entries@, j);
                }
                if diff_keys(self@, new@).contains(k) {
                    let j = choose|j: int| 0 <= j < self.entries@.len() && self.entries@[j].0 == k;
                    lemma_map_of_pairs_index(self.entries@, j);
                }
            }
        }
        r
    }
}

/// The writes one reconciliation pass issues: for every key present in
/// both states whose live value differs from the desired one, the
/// desired value — and nothing else.
pub fn reconcile(live: &DeviceState, desired: &DeviceState) -> (plan: Vec<(ControlKey, ElemValue)>)
    requires
        live.wf(),
        desired.wf(),
    ensures
        forall|i: int|
            0 <= i < plan@.len() ==> diff_keys(live@, desired@).contains(#[trigger] plan@[i].0)
                && plan@[i].1 == desired@[plan@[i].0],
        forall|k: ControlKey|
            diff_keys(live@, desired@).contains(k) ==> exists|i: int|
                0 <= i < plan@.len() && #[trigger] plan@[i].0 == k,
        forall|i: int, j: int| 0 <= i < j < plan@.len() ==> plan@[i].0 != plan@[j].0,
{
    let keys = live.diff(desired);
    let mut plan: Vec<(ControlKey, ElemValue)> = Vec::new();
    let n = keys.len();
    let mut i: usize = 0;
    while i < n
        invariant
            live.wf(),
            desired.wf(),
            n == keys@.len(),
            i <= n,
            forall|k: ControlKey| keys@.contains(k) <==> diff_keys(live@, desired@).contains(k),
            forall|i1: int, i2: int| 0 <= i1 < i2 < keys@.len() ==> keys@[i1] != keys@[i2],
            plan@.len() == i,
            forall|j: int| 0 <= j < i ==> #[trigger] plan@[j].0 == keys@[j],
            forall|j: int|
                0 <= j < i ==> diff_keys(live@, desired@).contains(#[trigger] plan@[j].0)
                    && plan@[j].1 == desired@[plan@[j].0],
        decreases n - i,
    {
        let k = keys[i];
        proof {
            assert(keys@.contains(k));
        }
        match desired.get(k) {
            Some(v) => {
                plan.push((k, v));
            },
            None => {
                proof {
                    assert(false);
                }
            },
        }
        i = i + 1;
    }
    proof {
        assert forall|k: ControlKey| diff_keys(live@, desired@).contains(k) implies exists|i: int|
            0 <= i < plan@.len() && #[trigger] plan@[i].0 == k by {
            assert(keys@.contains(k));
            let j = choose|j: int| 0 <= j < keys@.len() && keys@[j] == k;
            assert(plan@[j].0 == k);
        }
    }
    plan
}

/// The canonical state after a sequence of writes is applied in order:
/// each write sets its key's value if the key names a control that is
/// present, and is ignored otherwise.
pub open spec fn apply_writes(
    m: Map<ControlKey, ElemValue>,
    s: Seq<(ControlKey, ElemValue)>,
) -> Map<ControlKey, ElemValue>
    decreases s.len(),
{
    if s.len() == 0 {
        m
    } else {
        let r = apply_writes(m, s.drop_last());
        if r.dom().contains(s.last().0) {
            r.insert(s.last().0, s.last().1)
        } else {
            r
        }
    }
}

/// Applying writes never adds or removes a control, and leaves every
/// key that no write names unchanged.
pub proof fn lemma_apply_writes_frame(m: Map<ControlKey, ElemValue>, s: Seq<(ControlKey, ElemValue)>)
    ensures
        apply_writes(m, s).dom() == m.dom(),
        forall|k: ControlKey|
            m.dom().contains(k) && (forall|i: int| 0 <= i < s.len() ==> (#[trigger] s[i]).0 != k)
                ==> apply_writes(m, s)[k] == m[k],
    decreases s.len(),
{
    if s.len() > 0 {
        lemma_apply_writes_frame(m, s.drop_last());
        assert(apply_writes(m, s).dom() =~= m.dom());
        assert forall|k: ControlKey|
            m.dom().contains(k) && (forall|i: int| 0 <= i < s.len() ==> (#[trigger] s[i]).0 != k)
                implies apply_writes(m, s)[k] == m[k] by {
            assert(forall|i: int| 0 <= i < s.drop_last().len() ==> (#[trigger] s.drop_last()[i]).0
                != k);
            assert(s[s.len() - 1].0 != k);
        }
    }
}

/// A key that some write names, all of whose writes carry the same
/// value, holds that value after the writes are applied.
pub proof fn lemma_apply_writes_hit(
    m: Map<ControlKey, ElemValue>,
    s: Seq<(ControlKey, ElemValue)>,
    k: ControlKey,
    v: ElemValue,
)
    requires
        m.dom().contains(k),
        exists|i: int| 0 <= i < s.len() && (#[trigger] s[i]).0 == k,
        forall|i: int| 0 <= i < s.len() && (#[trigger] s[i]).0 == k ==> s[i].1 == v,
    ensures
        apply_writes(m, s)[k] == v,
    decreases s.len(),
{
    lemma_apply_writes_frame(m, s.drop_last());
    if s.last().0 == k {
        assert(s[s.len() - 1].1 == v);
    } else {
        let i = choose|i: int| 0 <= i < s.len() && (#[trigger] s[i]).0 == k;
        assert(s.drop_last()[i].0 == k);
        assert(forall|j: int|
            0 <= j < s.drop_last().len() && (#[trigger] s.drop_last()[j]).0 == k
                ==> s.drop_last()[j].1 == v);
        lemma_apply_writes_hit(m, s.drop_last(), k, v);
    }
}

/// Idempotence of reconciliation: once the writes of a pass computed by
/// [`reconcile`] have been applied to the live state, no key present in
/// both states differs any more, so a second pass over the same desired
/// state issues zero writes.
pub proof fn lemma_reconcile_idempotent(
    live: Map<ControlKey, ElemValue>,
    desired: Map<ControlKey, ElemValue>,
    plan: Seq<(ControlKey, ElemValue)>,
)
    requires
        forall|i: int|
            0 <= i < plan.len() ==> diff_keys(live, desired).contains((#[trigger] plan[i]).0)
                && plan[i].1 == desired[plan[i].0],
        forall|k: ControlKey|
            diff_keys(live, desired).contains(k) ==> exists|i: int|
                0 <= i < plan.len() && (#[trigger] plan[i]).0 == k,
    ensures
        diff_keys(apply_writes(live, plan), desired) == Set::<ControlKey>::empty(),
{
    let applied = apply_writes(live, plan);
    lemma_apply_writes_frame(live, plan);
    assert forall|k: ControlKey| !diff_keys(applied, desired).contains(k) by {
        if applied.dom().contains(k) && desired.dom().contains(k) {
            if diff_keys(live, desired).contains(k) {
                lemma_apply_writes_hit(live, plan, k, desired[k]);
            } else {
                assert(forall|i: int| 0 <= i < plan.len() ==> (#[trigger] plan[i]).0 != k);
                assert(applied[k] == live[k]);
            }
        }
    }
    assert(diff_keys(applied, desired) =~= Set::<ControlKey>::empty());
}

impl DeviceState {
    /// Apply a write plan to this state, as the hardware would: each
    /// write in order sets its key's value when the key is present and
    /// is ignored otherwise.
    pub fn apply(&mut self, plan: &Vec<(ControlKey, ElemValue)>)
        requires
            old(self).wf(),
        ensures
            final(self).wf(),
            final(self)@ == apply_writes(old(self)@, plan@),
    {
        let n = plan.len();
        let mut i: usize = 0;
        while i < n
            invariant
                n == plan@.len(),
                i <= n,
                self.wf(),
                self@ == apply_writes(old(self)@, plan@.take(i as int)),
            decreases n - i,
        {
            proof {
                assert(plan@.take(i + 1).drop_last() =~= plan@.take(i as int));
                assert(plan@.take(i + 1).last() == plan@[i as int]);
            }
            let (k, v) = plan[i];
            match self.get(k) {
                Some(_) => {
                    self.insert(k, v);
                },
                None => {},
            }
            i = i + 1;
        }
        proof {
            assert(plan@.take(n as int) =~= plan@);
        }
    }
}

} // verus!
