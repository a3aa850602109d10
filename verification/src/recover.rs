//! Stale-index recovery: a persisted routing model may reference
//! options that the connected device no longer reports (a firmware or
//! model change can shrink an option list).  Loading such a model must
//! never index out of bounds and must never silently corrupt routing:
//! every out-of-range selection is clamped to the nearest valid index,
//! every gain is clamped into the accepted range, and each affected
//! capture slot, mixer entry and output is flagged for user review.

use vstd::prelude::*;
use crate::device::Device;
use crate::state::{
    AppState, AppStateView, EnumIndex, GAIN_MAX, GAIN_MIN, MixerDestination, MixerEntry,
    MixerOutput, MixerEntryView, MixerOutputView, clamp_index, clamp_index_spec,
};

verus! {

/// A persisted capture selection clamped against the current device:
/// an assigned slot stays assigned, to the nearest valid source.
pub open spec fn capture_slot_sanitized(c: Option<EnumIndex>, n_src: int) -> Option<EnumIndex> {
    match c {
        None => None,
        Some(s) => Some(clamp_index_spec(s as int, n_src) as usize),
    }
}

/// A gain clamped into the accepted range.
pub open spec fn gain_sanitized(g: i32) -> i32 {
    if g < GAIN_MIN {
        GAIN_MIN
    } else if g > GAIN_MAX {
        GAIN_MAX
    } else {
        g
    }
}

/// A destination with its bus indices and gain clamped.
pub open spec fn dest_sanitized(d: MixerDestination, n_mix: int) -> MixerDestination {
    MixerDestination {
        dest: clamp_index_spec(d.dest as int, n_mix) as usize,
        dest_r: clamp_index_spec(d.dest_r as int, n_mix) as usize,
        gain: gain_sanitized(d.gain),
        ..d
    }
}

/// An entry with its sources and all its destinations clamped.
pub open spec fn entry_sanitized(v: MixerEntryView, n_src: int, n_mix: int) -> MixerEntryView {
    MixerEntryView {
        source: clamp_index_spec(v.source as int, n_src) as usize,
        source_r: clamp_index_spec(v.source_r as int, n_src) as usize,
        dests: Seq::new(v.dests.len(), |j: int| dest_sanitized(v.dests[j], n_mix)),
        ..v
    }
}

/// An output with its source pair and gain clamped.
pub open spec fn output_sanitized(v: MixerOutputView, n_src: int) -> MixerOutputView {
    MixerOutputView {
        gain: gain_sanitized(v.gain),
        source: (
            clamp_index_spec(v.source.0 as int, n_src) as usize,
            clamp_index_spec(v.source.1 as int, n_src) as usize,
        ),
        ..v
    }
}

/// The whole model clamped against the current device.
pub open spec fn state_sanitized(v: AppStateView, n_src: int, n_mix: int) -> AppStateView {
    AppStateView {
        capture: Seq::new(v.capture.len(), |i: int| capture_slot_sanitized(v.capture[i], n_src)),
        mixer_entries: Seq::new(
            v.mixer_entries.len(),
            |i: int| entry_sanitized(v.mixer_entries[i], n_src, n_mix),
        ),
        global_gain: gain_sanitized(v.global_gain),
        outputs: Seq::new(v.outputs.len(), |i: int| output_sanitized(v.outputs[i], n_src)),
        ..v
    }
}

/// Which parts of a loaded model were clamped, each index once and in
/// increasing order, for the user to review.
pub struct SanitizeReport {
    /// Capture slots whose selection was clamped.
    pub capture: Vec<usize>,
    /// Mixer entries in which anything was clamped.
    pub entries: Vec<usize>,
    /// Outputs in which anything was clamped.
    pub outputs: Vec<usize>,
}

/// The indices are strictly increasing (so each appears once).
pub open spec fn strictly_increasing(s: Seq<usize>) -> bool {
    forall|i: int, j: int| 0 <= i < j < s.len() ==> s[i] < s[j]
}

proof fn lemma_push_contains(s: Seq<usize>, x: usize, y: usize)
    ensures
        s.push(x).contains(y) <==> (s.contains(y) || x == y),
{
    if s.push(x).contains(y) {
        let i = choose|i: int| 0 <= i < s.push(x).len() && s.push(x)[i] == y;
        if i < s.len() {
            assert(s[i] == y);
        }
    }
    if s.contains(y) {
        let i = choose|i: int| 0 <= i < s.len() && s[i] == y;
        assert(s.push(x)[i] == y);
    }
    if x == y {
        assert(s.push(x)[s.len() as int] == y);
    }
}

/// Clamp a gain into the accepted range.
pub fn sanitize_gain(g: i32) -> (r: i32)
    ensures
        r == gain_sanitized(g),
{
    if g < GAIN_MIN {
        GAIN_MIN
    } else if g > GAIN_MAX {
        GAIN_MAX
    } else {
        g
    }
}

fn sanitize_dest(d: MixerDestination, n_mix: usize) -> (r: MixerDestination)
    requires
        n_mix >= 1,
    ensures
        r == dest_sanitized(d, n_mix as int),
{
    MixerDestination {
        stereo: d.stereo,
        dest: clamp_index(d.dest, n_mix),
        dest_r: clamp_index(d.dest_r, n_mix),
        split: d.split,
        gain: sanitize_gain(d.gain),
    }
}

fn sanitize_entry(e: &MixerEntry, n_src: usize, n_mix: usize) -> (r: (MixerEntry, bool))
    requires
        n_src >= 1,
        n_mix >= 1,
    ensures
        r.0@ == entry_sanitized(e@, n_src as int, n_mix as int),
        r.1 <==> r.0@ != e@,
{
    let source = clamp_index(e.source, n_src);
    let source_r = clamp_index(e.source_r, n_src);
    let mut changed = source != e.source || source_r != e.source_r;
    let nd = e.dests.len();
    let mut dests: Vec<MixerDestination> = Vec::new();
    let mut j: usize = 0;
    while j < nd
        invariant
            n_mix >= 1,
            nd == e.dests@.len(),
            j <= nd,
            dests@.len() == j,
            forall|t: int|
                0 <= t < j ==> dests@[t] == dest_sanitized(e.dests@[t], n_mix as int),
            changed == (source as int != e.source || source_r as int != e.source_r || exists|t: int|
                0 <= t < j && dest_sanitized(e.dests@[t], n_mix as int) != e.dests@[t]),
            source as int == clamp_index_spec(e.source as int, n_src as int),
            source_r as int == clamp_index_spec(e.source_r as int, n_src as int),
        decreases nd - j,
    {
        let d = e.dests[j];
        let d2 = sanitize_dest(d, n_mix);
        if d2 != d {
            changed = true;
        }
        dests.push(d2);
        proof {
            if changed && !(source as int != e.source || source_r as int != e.source_r) {
                if dest_sanitized(e.dests@[j as int], n_mix as int) != e.dests@[j as int] {
                } else {
                    assert(exists|t: int|
                        0 <= t < j && dest_sanitized(e.dests@[t], n_mix as int) != e.dests@[t]);
                }
            }
        }
        j = j + 1;
    }
    let r = MixerEntry {
        name: e.name.clone(),
        enabled: e.enabled,
        stereo: e.stereo,
        split: e.split,
        source,
        source_r,
        dests,
    };
    proof {
        assert(r@.dests =~= entry_sanitized(e@, n_src as int, n_mix as int).dests);
        assert(r@ == entry_sanitized(e@, n_src as int, n_mix as int));
        if changed {
            if source as int != e.source {
                assert(r@.source != e@.source);
            } else if source_r as int != e.source_r {
                assert(r@.source_r != e@.source_r);
            } else {
                let t = choose|t: int|
                    0 <= t < nd && dest_sanitized(e.dests@[t], n_mix as int) != e.dests@[t];
                assert(r@.dests[t] != e@.dests[t]);
                assert(r@.dests != e@.dests);
            }
            assert(r@ != e@);
        } else {
            assert(r@.dests =~= e@.dests);
            assert(r@ == e@);
        }
    }
    (r, changed)
}

fn sanitize_output(o: &MixerOutput, n_src: usize) -> (r: (MixerOutput, bool))
    requires
        n_src >= 1,
    ensures
        r.0@ == output_sanitized(o@, n_src as int),
        r.1 <==> r.0@ != o@,
{
    let gain = sanitize_gain(o.gain);
    let s0 = clamp_index(o.source.0, n_src);
    let s1 = clamp_index(o.source.1, n_src);
    let changed = gain != o.gain || s0 != o.source.0 || s1 != o.source.1;
    let r = MixerOutput { name: o.name.clone(), gain, mute: o.mute, source: (s0, s1), split: o.split };
    proof {
        assert(r@ == output_sanitized(o@, n_src as int));
        if changed {
            assert(r@ != o@);
        } else {
            assert(r@ == o@);
        }
    }
    (r, changed)
}

impl AppState {
    /// Clamp every selection of a loaded model into the connected
    /// device's option lists and every gain into the accepted range,
    /// and report exactly which capture slots, mixer entries and
    /// outputs had to change: stale persisted indices are recovered
    /// locally and flagged, never silently applied and never allowed
    /// to index out of bounds.
    pub fn sanitize(&self, device: &Device) -> (r: (AppState, SanitizeReport))
        requires
            device.wf(),
        ensures
            r.0@ == state_sanitized(
                self@,
                device.audio_sources@.len() as int,
                device.mixer_destinations@.len() as int,
            ),
            forall|u: usize|
                r.1.capture@.contains(u) <==> u < self.capture@.len()
                    && capture_slot_sanitized(self.capture@[u as int], device.audio_sources@.len() as int)
                    != self.capture@[u as int],
            forall|u: usize|
                r.1.entries@.contains(u) <==> u < self.mixer_entries@.len() && entry_sanitized(
                    self.mixer_entries@[u as int]@,
                    device.audio_sources@.len() as int,
                    device.mixer_destinations@.len() as int,
                ) != self.mixer_entries@[u as int]@,
            forall|u: usize|
                r.1.outputs@.contains(u) <==> u < 3 && output_sanitized(
                    self.outputs@[u as int]@,
                    device.audio_sources@.len() as int,
                ) != self.outputs@[u as int]@,
            strictly_increasing(r.1.capture@),
            strictly_increasing(r.1.entries@),
            strictly_increasing(r.1.outputs@),
    {
        let n_src = device.audio_sources.len();
        let n_mix = device.mixer_destinations.len();
        let ghost ns = n_src as int;
        let ghost nm = n_mix as int;

        let nc = self.capture.len();
        let mut capture: Vec<Option<EnumIndex>> = Vec::new();
        let mut rep_capture: Vec<usize> = Vec::new();
        let mut i: usize = 0;
        while i < nc
            invariant
                1 <= n_src == ns,
                nc == self.capture@.len(),
                i <= nc,
                capture@.len() == i,
                forall|t: int|
                    0 <= t < i ==> capture@[t] == capture_slot_sanitized(self.capture@[t], ns),
                forall|u: usize|
                    rep_capture@.contains(u) <==> u < i && capture_slot_sanitized(
                        self.capture@[u as int],
                        ns,
                    ) != self.capture@[u as int],
                forall|t: int| 0 <= t < rep_capture@.len() ==> rep_capture@[t] < i,
                strictly_increasing(rep_capture@),
            decreases nc - i,
        {
            let c = self.capture[i];
            let c2 = match c {
                None => None,
                Some(s) => Some(clamp_index(s, n_src)),
            };
            capture.push(c2);
            if match (c, c2) {
                (Some(a), Some(b)) => a != b,
                _ => false,
            } {
                proof {
                    assert(c2 == capture_slot_sanitized(self.capture@[i as int], ns));
                }
                let ghost rep0 = rep_capture@;
                rep_capture.push(i);
                proof {
                    assert forall|u: usize|
                        rep_capture@.contains(u) <==> (u < i + 1 && capture_slot_sanitized(
                            self.capture@[u as int],
                            ns,
                        ) != self.capture@[u as int]) by {
                        lemma_push_contains(rep0, i, u);
                    }
                }
            } else {
                proof {
                    assert(c2 == capture_slot_sanitized(self.capture@[i as int], ns));
                    assert(c2 == c);
                    assert forall|u: usize|
                        rep_capture@.contains(u) <==> (u < i + 1 && capture_slot_sanitized(
                            self.capture@[u as int],
                            ns,
                        ) != self.capture@[u as int]) by {}
                }
            }
            i = i + 1;
        }

        let ne = self.mixer_entries.len();
        let mut entries: Vec<MixerEntry> = Vec::new();
        let mut rep_entries: Vec<usize> = Vec::new();
        let mut ei: usize = 0;
        while ei < ne
            invariant
                1 <= n_src == ns,
                1 <= n_mix == nm,
                ne == self.mixer_entries@.len(),
                ei <= ne,
                entries@.len() == ei,
                forall|t: int|
                    0 <= t < ei ==> #[trigger] entries@[t]@ == entry_sanitized(
                        self.mixer_entries@[t]@,
                        ns,
                        nm,
                    ),
                forall|u: usize|
                    rep_entries@.contains(u) <==> u < ei && entry_sanitized(
                        self.mixer_entries@[u as int]@,
                        ns,
                        nm,
                    ) != self.mixer_entries@[u as int]@,
                forall|t: int| 0 <= t < rep_entries@.len() ==> rep_entries@[t] < ei,
                strictly_increasing(rep_entries@),
            decreases ne - ei,
        {
            let (e2, changed) = sanitize_entry(&self.mixer_entries[ei], n_src, n_mix);
            entries.push(e2);
            if changed {
                let ghost rep0 = rep_entries@;
                rep_entries.push(ei);
                proof {
                    assert forall|u: usize|
                        rep_entries@.contains(u) <==> (u < ei + 1 && entry_sanitized(
                            self.mixer_entries@[u as int]@,
                            ns,
                            nm,
                        ) != self.mixer_entries@[u as int]@) by {
                        lemma_push_contains(rep0, ei, u);
                    }
                }
            }
            ei = ei + 1;
        }

        let (o0, c0) = sanitize_output(&self.outputs[0], n_src);
        let (o1, c1) = sanitize_output(&self.outputs[1], n_src);
        let (o2, c2) = sanitize_output(&self.outputs[2], n_src);
        let mut rep_outputs: Vec<usize> = Vec::new();
        let ghost rep_o0 = rep_outputs@;
        if c0 {
            rep_outputs.push(0);
        }
        let ghost rep_o1 = rep_outputs@;
        if c1 {
            rep_outputs.push(1);
        }
        let ghost rep_o2 = rep_outputs@;
        if c2 {
            rep_outputs.push(2);
        }
        proof {
            assert forall|u: usize|
                rep_outputs@.contains(u) <==> (u < 3 && output_sanitized(
                    self.outputs@[u as int]@,
                    ns,
                ) != self.outputs@[u as int]@) by {
                lemma_push_contains(rep_o0, 0, u);
                lemma_push_contains(rep_o1, 1, u);
                lemma_push_contains(rep_o2, 2, u);
                if u >= 3 && rep_outputs@.contains(u) {
                    let t = choose|t: int| 0 <= t < rep_outputs@.len() && rep_outputs@[t] == u;
                    assert(false);
                }
            }
        }

        let out = AppState {
            capture,
            mixer_entries: entries,
            global_gain: sanitize_gain(self.global_gain),
            global_mute: self.global_mute,
            hi_z_1: self.hi_z_1,
            hi_z_2: self.hi_z_2,
            outputs: [o0, o1, o2],
        };
        proof {
            assert(out@.capture =~= state_sanitized(self@, ns, nm).capture);
            assert(out@.mixer_entries =~= state_sanitized(self@, ns, nm).mixer_entries);
            assert(out@.outputs =~= state_sanitized(self@, ns, nm).outputs);
            assert(out@ == state_sanitized(self@, ns, nm));
        }
        (out, SanitizeReport { capture: rep_capture, entries: rep_entries, outputs: rep_outputs })
    }
}

} // verus!
