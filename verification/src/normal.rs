//! The state normalizer: maps the routing model into the canonical
//! keyed form of [`crate::device::DeviceState`], so that it can be
//! diffed structurally against a live read of the device.
//!
//! Key derivation is a pure function of structural position and routing
//! shape.  The mapping from a (source shape, destination shape) pair to
//! the concrete set of route keys is a fixed rule table:
//!
//! | source | destination | behavior                                        |
//! |--------|-------------|-------------------------------------------------|
//! | mono   | mono        | one route key                                   |
//! | mono   | stereo      | the source fans out to both destination buses   |
//! | stereo | mono        | both source channels sum into the one bus       |
//! | stereo | stereo      | left routes to left, right to right             |
//!
//! Every stored index is clamped into its list before a key is derived,
//! and a joined (non-split) pair is clamped so that its right-adjacent
//! index exists.

use vstd::prelude::*;
use crate::device::{ControlKey, Device, DeviceState, ElemValue, diff_keys, map_of_pairs};
use crate::state::{AppState, EnumIndex, MixerDestination, MixerEntry, MixerOutput};
use crate::state::{clamp_index, clamp_index_spec, joined_pair, joined_pair_spec};
use crate::state::lemma_joined_pair_clamped;

verus! {

/// The canonical value of one capture slot: index 0 selects "Off", and
/// source `s` of the audio-source list is option `s + 1` of the capture
/// selector.
pub open spec fn capture_value(c: Option<EnumIndex>, n_src: int) -> ElemValue {
    match c {
        None => ElemValue::Enum(0),
        Some(s) => ElemValue::Enum((clamp_index_spec(s as int, n_src) + 1) as usize),
    }
}

/// The canonical pairs of the capture slots before slot `k`, in slot
/// order.
pub open spec fn capture_pairs(capture: Seq<Option<EnumIndex>>, k: int, n_src: int) -> Seq<
    (ControlKey, ElemValue),
>
    decreases k,
{
    if k <= 0 {
        Seq::empty()
    } else {
        capture_pairs(capture, k - 1, n_src).push(
            (
                ControlKey::CaptureSource { slot: (k - 1) as usize },
                capture_value(capture[k - 1], n_src),
            ),
        )
    }
}

/// The canonical pairs one destination of a mixer entry contributes:
/// the rule table of the module documentation, with all indices clamped
/// into range.  Each produced pair is a route key carrying the
/// destination's gain.
pub open spec fn dest_pairs(
    src_stereo: bool,
    src_split: bool,
    source: EnumIndex,
    source_r: EnumIndex,
    d: MixerDestination,
    n_src: int,
    n_mix: int,
) -> Seq<(ControlKey, ElemValue)> {
    let g = ElemValue::Knob { db: d.gain, muted: false };
    if src_stereo {
        let sp = if src_split {
            (clamp_index_spec(source as int, n_src), clamp_index_spec(source_r as int, n_src))
        } else {
            joined_pair_spec(source as int, n_src)
        };
        if d.stereo {
            let mp = if d.split {
                (clamp_index_spec(d.dest as int, n_mix), clamp_index_spec(d.dest_r as int, n_mix))
            } else {
                joined_pair_spec(d.dest as int, n_mix)
            };
            seq![
                (ControlKey::RouteGain { source: sp.0 as usize, mix: mp.0 as usize }, g),
                (ControlKey::RouteGain { source: sp.1 as usize, mix: mp.1 as usize }, g),
            ]
        } else {
            let m = clamp_index_spec(d.dest as int, n_mix);
            seq![
                (ControlKey::RouteGain { source: sp.0 as usize, mix: m as usize }, g),
                (ControlKey::RouteGain { source: sp.1 as usize, mix: m as usize }, g),
            ]
        }
    } else {
        let s = clamp_index_spec(source as int, n_src);
        if d.stereo {
            let mp = if d.split {
                (clamp_index_spec(d.dest as int, n_mix), clamp_index_spec(d.dest_r as int, n_mix))
            } else {
                joined_pair_spec(d.dest as int, n_mix)
            };
            seq![
                (ControlKey::RouteGain { source: s as usize, mix: mp.0 as usize }, g),
                (ControlKey::RouteGain { source: s as usize, mix: mp.1 as usize }, g),
            ]
        } else {
            let m = clamp_index_spec(d.dest as int, n_mix);
            seq![(ControlKey::RouteGain { source: s as usize, mix: m as usize }, g)]
        }
    }
}

/// The canonical pairs of the first `k` destinations of one entry, in
/// order.
pub open spec fn entry_dests_pairs(e: MixerEntry, k: int, n_src: int, n_mix: int) -> Seq<
    (ControlKey, ElemValue),
>
    decreases k,
{
    if k <= 0 {
        Seq::empty()
    } else {
        entry_dests_pairs(e, k - 1, n_src, n_mix) + dest_pairs(
            e.stereo,
            e.split,
            e.source,
            e.source_r,
            e.dests@[k - 1],
            n_src,
            n_mix,
        )
    }
}

/// The canonical pairs of one mixer entry: a disabled entry consumes no
/// mixer channel and routes nothing.
pub open spec fn entry_pairs(e: MixerEntry, n_src: int, n_mix: int) -> Seq<
    (ControlKey, ElemValue),
> {
    if e.enabled {
        entry_dests_pairs(e, e.dests@.len() as int, n_src, n_mix)
    } else {
        Seq::empty()
    }
}

/// The canonical pairs of the first `k` mixer entries, in order.
pub open spec fn entries_pairs(entries: Seq<MixerEntry>, k: int, n_src: int, n_mix: int) -> Seq<
    (ControlKey, ElemValue),
>
    decreases k,
{
    if k <= 0 {
        Seq::empty()
    } else {
        entries_pairs(entries, k - 1, n_src, n_mix) + entry_pairs(entries[k - 1], n_src, n_mix)
    }
}

/// The canonical pairs of the global controls: the playback gain/mute
/// knob and the two high-impedance switches.
pub open spec fn global_pairs(gain: i32, mute: bool, hi_z_1: bool, hi_z_2: bool) -> Seq<
    (ControlKey, ElemValue),
> {
    seq![
        (ControlKey::GlobalKnob, ElemValue::Knob { db: gain, muted: mute }),
        (
            ControlKey::HiZ { input: 0 },
            ElemValue::Enum(
                if hi_z_1 {
                    1
                } else {
                    0
                },
            ),
        ),
        (
            ControlKey::HiZ { input: 1 },
            ElemValue::Enum(
                if hi_z_2 {
                    1
                } else {
                    0
                },
            ),
        ),
    ]
}

/// The canonical pairs of one physical output: its two source
/// selectors (a joined pair is clamped like any other) and its
/// gain/mute knob.
pub open spec fn output_pairs(o: MixerOutput, idx: int, n_src: int) -> Seq<
    (ControlKey, ElemValue),
> {
    let sp = if o.split {
        (clamp_index_spec(o.source.0 as int, n_src), clamp_index_spec(o.source.1 as int, n_src))
    } else {
        joined_pair_spec(o.source.0 as int, n_src)
    };
    seq![
        (
            ControlKey::OutputSource { output: idx as usize, right: false },
            ElemValue::Enum(sp.0 as usize),
        ),
        (
            ControlKey::OutputSource { output: idx as usize, right: true },
            ElemValue::Enum(sp.1 as usize),
        ),
        (
            ControlKey::OutputKnob { output: idx as usize },
            ElemValue::Knob { db: o.gain, muted: o.mute },
        ),
    ]
}

/// The canonical pairs of the first `k` outputs, in order.
pub open spec fn outputs_pairs(outs: Seq<MixerOutput>, k: int, n_src: int) -> Seq<
    (ControlKey, ElemValue),
>
    decreases k,
{
    if k <= 0 {
        Seq::empty()
    } else {
        outputs_pairs(outs, k - 1, n_src) + output_pairs(outs[k - 1], k - 1, n_src)
    }
}

/// Everything the routing model says about the hardware, as one ordered
/// sequence of canonical pairs: capture slots, then mixer routes, then
/// the global controls, then the outputs.
pub open spec fn normal_seq(m: AppState, n_src: int, n_mix: int) -> Seq<(ControlKey, ElemValue)> {
    capture_pairs(m.capture@, m.capture@.len() as int, n_src) + entries_pairs(
        m.mixer_entries@,
        m.mixer_entries@.len() as int,
        n_src,
        n_mix,
    ) + global_pairs(m.global_gain, m.global_mute, m.hi_z_1, m.hi_z_2) + outputs_pairs(
        m.outputs@,
        m.outputs@.len() as int,
        n_src,
    )
}

/// Appending one pair extends the built map by one insert.
pub proof fn lemma_map_of_pairs_push(s: Seq<(ControlKey, ElemValue)>, k: ControlKey, v: ElemValue)
    ensures
        map_of_pairs(s.push((k, v))) == map_of_pairs(s).insert(k, v),
{
    assert(s.push((k, v)).drop_last() =~= s);
    assert(s.push((k, v)).last() == (k, v));
}

impl DeviceState {
    /// Set a key's value and account for it in the emitted-pair ghost
    /// accumulator.
    fn put(&mut self, acc: &mut Ghost<Seq<(ControlKey, ElemValue)>>, key: ControlKey, value: ElemValue)
        requires
            old(self).wf(),
            old(self)@ == map_of_pairs(old(acc)@),
        ensures
            final(self).wf(),
            final(self)@ == map_of_pairs(final(acc)@),
            final(acc)@ == old(acc)@.push((key, value)),
    {
        proof {
            lemma_map_of_pairs_push(acc@, key, value);
        }
        self.insert(key, value);
        proof {
            *acc = Ghost(acc@.push((key, value)));
        }
    }

    /// Build the canonical state of the routing model: the declared
    /// side of a reconciliation pass.  Later pairs for a key a user
    /// routed twice (two destinations on the same bus) overwrite
    /// earlier ones.
    pub fn from_model(model: &AppState, device: &Device) -> (r: DeviceState)
        requires
            device.wf(),
        ensures
            r.wf(),
            r@ == map_of_pairs(
                normal_seq(
                    *model,
                    device.audio_sources@.len() as int,
                    device.mixer_destinations@.len() as int,
                ),
            ),
    {
        let n_src = device.audio_sources.len();
        let n_mix = device.mixer_destinations.len();
        let ghost ns = n_src as int;
        let ghost nm = n_mix as int;
        let mut ds = DeviceState::new();
        let mut acc: Ghost<Seq<(ControlKey, ElemValue)>> = Ghost(Seq::empty());

        let nc = model.capture.len();
        let mut i: usize = 0;
        while i < nc
            invariant
                2 <= n_src == ns,
                2 <= n_mix == nm,
                nc == model.capture@.len(),
                i <= nc,
                ds.wf(),
                ds@ == map_of_pairs(acc@),
                acc@ == capture_pairs(model.capture@, i as int, ns),
            decreases nc - i,
        {
            let v = match model.capture[i] {
                None => ElemValue::Enum(0),
                Some(s) => ElemValue::Enum(clamp_index(s, n_src) + 1),
            };
            ds.put(&mut acc, ControlKey::CaptureSource { slot: i }, v);
            i = i + 1;
        }

        let ghost cap_full = acc@;
        let ne = model.mixer_entries.len();
        let mut ei: usize = 0;
        while ei < ne
            invariant
                2 <= n_src == ns,
                2 <= n_mix == nm,
                ne == model.mixer_entries@.len(),
                ei <= ne,
                ds.wf(),
                ds@ == map_of_pairs(acc@),
                cap_full == capture_pairs(model.capture@, model.capture@.len() as int, ns),
                acc@ == cap_full + entries_pairs(model.mixer_entries@, ei as int, ns, nm),
            decreases ne - ei,
        {
            let e = &model.mixer_entries[ei];
            let ghost entry_base = acc@;
            if e.enabled {
                let nd = e.dests.len();
                let mut di: usize = 0;
                while di < nd
                    invariant
                        2 <= n_src == ns,
                        2 <= n_mix == nm,
                        nd == e.dests@.len(),
                        di <= nd,
                        ds.wf(),
                        ds@ == map_of_pairs(acc@),
                        acc@ == entry_base + entry_dests_pairs(*e, di as int, ns, nm),
                    decreases nd - di,
                {
                    let d = e.dests[di];
                    let ghost acc0 = acc@;
                    let g = ElemValue::Knob { db: d.gain, muted: false };
                    if e.stereo {
                        let sp = if e.split {
                            (clamp_index(e.source, n_src), clamp_index(e.source_r, n_src))
                        } else {
                            joined_pair(e.source, n_src)
                        };
                        if d.stereo {
                            let mp = if d.split {
                                (clamp_index(d.dest, n_mix), clamp_index(d.dest_r, n_mix))
                            } else {
                                joined_pair(d.dest, n_mix)
                            };
                            ds.put(
                                &mut acc,
                                ControlKey::RouteGain { source: sp.0, mix: mp.0 },
                                g,
                            );
                            ds.put(
                                &mut acc,
                                ControlKey::RouteGain { source: sp.1, mix: mp.1 },
                                g,
                            );
                        } else {
                            let m = clamp_index(d.dest, n_mix);
                            ds.put(&mut acc, ControlKey::RouteGain { source: sp.0, mix: m }, g);
                            ds.put(&mut acc, ControlKey::RouteGain { source: sp.1, mix: m }, g);
                        }
                    } else {
                        let s = clamp_index(e.source, n_src);
                        if d.stereo {
                            let mp = if d.split {
                                (clamp_index(d.dest, n_mix), clamp_index(d.dest_r, n_mix))
                            } else {
                                joined_pair(d.dest, n_mix)
                            };
                            ds.put(&mut acc, ControlKey::RouteGain { source: s, mix: mp.0 }, g);
                            ds.put(&mut acc, ControlKey::RouteGain { source: s, mix: mp.1 }, g);
                        } else {
                            let m = clamp_index(d.dest, n_mix);
                            ds.put(&mut acc, ControlKey::RouteGain { source: s, mix: m }, g);
                        }
                    }
                    proof {
                        assert(acc@ =~= acc0 + dest_pairs(
                            e.stereo,
                            e.split,
                            e.source,
                            e.source_r,
                            e.dests@[di as int],
                            ns,
                            nm,
                        ));
                        assert(acc@ =~= entry_base + entry_dests_pairs(*e, di + 1, ns, nm));
                    }
                    di = di + 1;
                }
                proof {
                    assert(acc@ == entry_base + entry_pairs(*e, ns, nm));
                }
            } else {
                proof {
                    assert(acc@ =~= entry_base + entry_pairs(*e, ns, nm));
                }
            }
            proof {
                assert(model.mixer_entries@[ei as int] == *e);
                assert(acc@ =~= cap_full + entries_pairs(model.mixer_entries@, ei + 1, ns, nm));
            }
            ei = ei + 1;
        }

        let ghost mix_full = acc@;
        ds.put(
            &mut acc,
            ControlKey::GlobalKnob,
            ElemValue::Knob { db: model.global_gain, muted: model.global_mute },
        );
        ds.put(
            &mut acc,
            ControlKey::HiZ { input: 0 },
            ElemValue::Enum(
                if model.hi_z_1 {
                    1
                } else {
                    0
                },
            ),
        );
        ds.put(
            &mut acc,
            ControlKey::HiZ { input: 1 },
            ElemValue::Enum(
                if model.hi_z_2 {
                    1
                } else {
                    0
                },
            ),
        );
        proof {
            assert(acc@ =~= mix_full + global_pairs(
                model.global_gain,
                model.global_mute,
                model.hi_z_1,
                model.hi_z_2,
            ));
        }

        let ghost out_base = acc@;
        let mut oi: usize = 0;
        while oi < 3
            invariant
                2 <= n_src == ns,
                oi <= 3,
                ds.wf(),
                ds@ == map_of_pairs(acc@),
                acc@ == out_base + outputs_pairs(model.outputs@, oi as int, ns),
            decreases 3 - oi,
        {
            let o = &model.outputs[oi];
            let ghost acc0 = acc@;
            let sp = if o.split {
                (clamp_index(o.source.0, n_src), clamp_index(o.source.1, n_src))
            } else {
                joined_pair(o.source.0, n_src)
            };
            ds.put(
                &mut acc,
                ControlKey::OutputSource { output: oi, right: false },
                ElemValue::Enum(sp.0),
            );
            ds.put(
                &mut acc,
                ControlKey::OutputSource { output: oi, right: true },
                ElemValue::Enum(sp.1),
            );
            ds.put(
                &mut acc,
                ControlKey::OutputKnob { output: oi },
                ElemValue::Knob { db: o.gain, muted: o.mute },
            );
            proof {
                assert(acc@ =~= acc0 + output_pairs(model.outputs@[oi as int], oi as int, ns));
                assert(acc@ =~= out_base + outputs_pairs(model.outputs@, oi + 1, ns));
            }
            oi = oi + 1;
        }

        proof {
            assert(model.outputs@.len() == 3);
            assert(acc@ =~= normal_seq(*model, ns, nm));
        }
        ds
    }
}

/// A canonical pair whose indices all point into the device's lists:
/// route keys name a real source and a real mix bus, selector values
/// are valid options (a capture selector has `n_src + 1` options, "Off"
/// first), and switches are 0 or 1.
pub open spec fn pair_in_range(p: (ControlKey, ElemValue), n_src: int, n_mix: int) -> bool {
    match p.0 {
        ControlKey::CaptureSource { slot: _ } => p.1 matches ElemValue::Enum(v) && v <= n_src,
        ControlKey::RouteGain { source, mix } => source < n_src && mix < n_mix && p.1 matches
            ElemValue::Knob { db: _, muted: _ },
        ControlKey::OutputSource { output, right: _ } => output < 3 && (p.1 matches
            ElemValue::Enum(v) && v < n_src),
        ControlKey::OutputKnob { output } => output < 3 && p.1 matches ElemValue::Knob {
            db: _,
            muted: _,
        },
        ControlKey::GlobalKnob => p.1 matches ElemValue::Knob { db: _, muted: _ },
        ControlKey::HiZ { input } => input < 2 && (p.1 matches ElemValue::Enum(v) && v <= 1),
    }
}

proof fn lemma_capture_pairs_in_range(capture: Seq<Option<EnumIndex>>, k: int, n_src: int)
    requires
        2 <= n_src <= usize::MAX,
    ensures
        forall|i: int|
            0 <= i < capture_pairs(capture, k, n_src).len() ==> pair_in_range(
                #[trigger] capture_pairs(capture, k, n_src)[i],
                n_src,
                0,
            ),
    decreases k,
{
    if k > 0 {
        lemma_capture_pairs_in_range(capture, k - 1, n_src);
        let s = capture_pairs(capture, k, n_src);
        let p = (
            ControlKey::CaptureSource { slot: (k - 1) as usize },
            capture_value(capture[k - 1], n_src),
        );
        assert(pair_in_range(p, n_src, 0)) by {
            match capture[k - 1] {
                None => {},
                Some(v) => {
                    assert(0 <= clamp_index_spec(v as int, n_src) + 1 <= n_src);
                },
            }
        }
        assert forall|i: int| 0 <= i < s.len() implies pair_in_range(
            #[trigger] s[i],
            n_src,
            0,
        ) by {
            if i < s.len() - 1 {
                assert(s[i] == capture_pairs(capture, k - 1, n_src)[i]);
            } else {
                assert(s[i] == p);
            }
        }
    }
}

proof fn lemma_dest_pairs_in_range(
    src_stereo: bool,
    src_split: bool,
    source: EnumIndex,
    source_r: EnumIndex,
    d: MixerDestination,
    n_src: int,
    n_mix: int,
)
    requires
        2 <= n_src <= usize::MAX,
        2 <= n_mix <= usize::MAX,
    ensures
        forall|i: int|
            0 <= i < dest_pairs(src_stereo, src_split, source, source_r, d, n_src, n_mix).len()
                ==> pair_in_range(
                #[trigger] dest_pairs(src_stereo, src_split, source, source_r, d, n_src, n_mix)[i],
                n_src,
                n_mix,
            ),
{
    lemma_joined_pair_clamped(source as int, n_src);
    lemma_joined_pair_clamped(d.dest as int, n_mix);
}

proof fn lemma_entry_pairs_in_range(e: MixerEntry, k: int, n_src: int, n_mix: int)
    requires
        2 <= n_src <= usize::MAX,
        2 <= n_mix <= usize::MAX,
    ensures
        forall|i: int|
            0 <= i < entry_dests_pairs(e, k, n_src, n_mix).len() ==> pair_in_range(
                #[trigger] entry_dests_pairs(e, k, n_src, n_mix)[i],
                n_src,
                n_mix,
            ),
    decreases k,
{
    if k > 0 {
        lemma_entry_pairs_in_range(e, k - 1, n_src, n_mix);
        lemma_dest_pairs_in_range(
            e.stereo,
            e.split,
            e.source,
            e.source_r,
            e.dests@[k - 1],
            n_src,
            n_mix,
        );
        let a = entry_dests_pairs(e, k - 1, n_src, n_mix);
        let b = dest_pairs(e.stereo, e.split, e.source, e.source_r, e.dests@[k - 1], n_src, n_mix);
        assert forall|i: int| 0 <= i < (a + b).len() implies pair_in_range(
            #[trigger] (a + b)[i],
            n_src,
            n_mix,
        ) by {
            if i < a.len() {
                assert((a + b)[i] == a[i]);
            } else {
                assert((a + b)[i] == b[i - a.len()]);
            }
        }
    }
}

proof fn lemma_entries_pairs_in_range(entries: Seq<MixerEntry>, k: int, n_src: int, n_mix: int)
    requires
        2 <= n_src <= usize::MAX,
        2 <= n_mix <= usize::MAX,
    ensures
        forall|i: int|
            0 <= i < entries_pairs(entries, k, n_src, n_mix).len() ==> pair_in_range(
                #[trigger] entries_pairs(entries, k, n_src, n_mix)[i],
                n_src,
                n_mix,
            ),
    decreases k,
{
    if k > 0 {
        lemma_entries_pairs_in_range(entries, k - 1, n_src, n_mix);
        let e = entries[k - 1];
        if e.enabled {
            lemma_entry_pairs_in_range(e, e.dests@.len() as int, n_src, n_mix);
        }
        let a = entries_pairs(entries, k - 1, n_src, n_mix);
        let b = entry_pairs(e, n_src, n_mix);
        assert forall|i: int| 0 <= i < (a + b).len() implies pair_in_range(
            #[trigger] (a + b)[i],
            n_src,
            n_mix,
        ) by {
            if i < a.len() {
                assert((a + b)[i] == a[i]);
            } else {
                assert((a + b)[i] == b[i - a.len()]);
            }
        }
    }
}

proof fn lemma_outputs_pairs_in_range(outs: Seq<MixerOutput>, k: int, n_src: int, n_mix: int)
    requires
        2 <= n_src <= usize::MAX,
        k <= 3,
    ensures
        forall|i: int|
            0 <= i < outputs_pairs(outs, k, n_src).len() ==> pair_in_range(
                #[trigger] outputs_pairs(outs, k, n_src)[i],
                n_src,
                n_mix,
            ),
    decreases k,
{
    if k > 0 {
        lemma_outputs_pairs_in_range(outs, k - 1, n_src, n_mix);
        lemma_joined_pair_clamped(outs[k - 1].source.0 as int, n_src);
        let a = outputs_pairs(outs, k - 1, n_src);
        let b = output_pairs(outs[k - 1], k - 1, n_src);
        assert forall|i: int| 0 <= i < (a + b).len() implies pair_in_range(
            #[trigger] (a + b)[i],
            n_src,
            n_mix,
        ) by {
            if i < a.len() {
                assert((a + b)[i] == a[i]);
            } else {
                assert((a + b)[i] == b[i - a.len()]);
            }
        }
    }
}

/// Bounds safety of rendering: whatever the stored model holds — stale
/// indices included — every canonical pair the normalizer derives from
/// it names controls and option indices that exist on the device, so a
/// reconciliation pass can never ask the hardware for an out-of-range
/// selection.
pub proof fn lemma_normal_seq_in_range(m: AppState, n_src: int, n_mix: int)
    requires
        2 <= n_src <= usize::MAX,
        2 <= n_mix <= usize::MAX,
        m.outputs@.len() == 3,
    ensures
        forall|i: int|
            0 <= i < normal_seq(m, n_src, n_mix).len() ==> pair_in_range(
                #[trigger] normal_seq(m, n_src, n_mix)[i],
                n_src,
                n_mix,
            ),
{
    let cap = capture_pairs(m.capture@, m.capture@.len() as int, n_src);
    let ent = entries_pairs(m.mixer_entries@, m.mixer_entries@.len() as int, n_src, n_mix);
    let glo = global_pairs(m.global_gain, m.global_mute, m.hi_z_1, m.hi_z_2);
    let out = outputs_pairs(m.outputs@, m.outputs@.len() as int, n_src);
    lemma_capture_pairs_in_range(m.capture@, m.capture@.len() as int, n_src);
    lemma_entries_pairs_in_range(m.mixer_entries@, m.mixer_entries@.len() as int, n_src, n_mix);
    lemma_outputs_pairs_in_range(m.outputs@, m.outputs@.len() as int, n_src, n_mix);
    assert forall|i: int| 0 <= i < normal_seq(m, n_src, n_mix).len() implies pair_in_range(
        #[trigger] normal_seq(m, n_src, n_mix)[i],
        n_src,
        n_mix,
    ) by {
        let s = normal_seq(m, n_src, n_mix);
        if i < cap.len() {
            assert(s[i] == cap[i]);
        } else if i < cap.len() + ent.len() {
            assert(s[i] == ent[i - cap.len()]);
        } else if i < cap.len() + ent.len() + glo.len() {
            assert(s[i] == glo[i - cap.len() - ent.len()]);
        } else {
            assert(s[i] == out[i - cap.len() - ent.len() - glo.len()]);
        }
    }
}

/// The set of keys that a sequence of canonical pairs touches.
pub open spec fn keys_of(s: Seq<(ControlKey, ElemValue)>) -> Set<ControlKey> {
    Set::new(|k: ControlKey| exists|i: int| 0 <= i < s.len() && (#[trigger] s[i]).0 == k)
}

/// Two canonical sequences of the same shape, key for key, whose values
/// may differ only at keys in `ks`.
pub open spec fn differ_only(
    s1: Seq<(ControlKey, ElemValue)>,
    s2: Seq<(ControlKey, ElemValue)>,
    ks: Set<ControlKey>,
) -> bool {
    &&& s1.len() == s2.len()
    &&& forall|i: int| 0 <= i < s1.len() ==> (#[trigger] s1[i]).0 == s2[i].0
    &&& forall|i: int|
        0 <= i < s1.len() && (#[trigger] s1[i]).1 != s2[i].1 ==> ks.contains(s1[i].0)
}

proof fn lemma_differ_only_concat(
    a1: Seq<(ControlKey, ElemValue)>,
    a2: Seq<(ControlKey, ElemValue)>,
    b1: Seq<(ControlKey, ElemValue)>,
    b2: Seq<(ControlKey, ElemValue)>,
    ks: Set<ControlKey>,
)
    requires
        differ_only(a1, b1, ks),
        differ_only(a2, b2, ks),
    ensures
        differ_only(a1 + a2, b1 + b2, ks),
{
    assert forall|i: int| 0 <= i < (a1 + a2).len() implies ((a1 + a2)[i]).0 == (b1 + b2)[i].0 by {
        if i < a1.len() {
            assert((a1 + a2)[i] == a1[i]);
            assert((b1 + b2)[i] == b1[i]);
        } else {
            assert((a1 + a2)[i] == a2[i - a1.len()]);
            assert((b1 + b2)[i] == b2[i - b1.len()]);
        }
    }
    assert forall|i: int|
        0 <= i < (a1 + a2).len() && ((a1 + a2)[i]).1 != (b1 + b2)[i].1 implies ks.contains(
        (a1 + a2)[i].0,
    ) by {
        if i < a1.len() {
            assert((a1 + a2)[i] == a1[i]);
            assert((b1 + b2)[i] == b1[i]);
        } else {
            assert((a1 + a2)[i] == a2[i - a1.len()]);
            assert((b1 + b2)[i] == b2[i - b1.len()]);
        }
    }
}

/// Keyframe of the minimality argument: building maps from two
/// sequences of the same shape leaves every key outside `ks` with the
/// same presence and the same value.
proof fn lemma_map_of_pairs_differ_only(
    s1: Seq<(ControlKey, ElemValue)>,
    s2: Seq<(ControlKey, ElemValue)>,
    ks: Set<ControlKey>,
)
    requires
        differ_only(s1, s2, ks),
    ensures
        map_of_pairs(s1).dom() == map_of_pairs(s2).dom(),
        forall|k: ControlKey|
            map_of_pairs(s1).dom().contains(k) && !ks.contains(k)
                ==> #[trigger] map_of_pairs(s1)[k] == map_of_pairs(s2)[k],
    decreases s1.len(),
{
    if s1.len() == 0 {
        assert(map_of_pairs(s1).dom() =~= map_of_pairs(s2).dom());
    } else {
        let d1 = s1.drop_last();
        let d2 = s2.drop_last();
        assert(differ_only(d1, d2, ks)) by {
            assert(forall|i: int| 0 <= i < d1.len() ==> (#[trigger] d1[i]) == s1[i]);
            assert(forall|i: int| 0 <= i < d2.len() ==> (#[trigger] d2[i]) == s2[i]);
        }
        lemma_map_of_pairs_differ_only(d1, d2, ks);
        let k0 = s1.last().0;
        assert(s1[s1.len() - 1].0 == s2[s1.len() - 1].0);
        assert(map_of_pairs(s1).dom() =~= map_of_pairs(s2).dom());
        assert forall|k: ControlKey|
            map_of_pairs(s1).dom().contains(k) && !ks.contains(k)
                implies #[trigger] map_of_pairs(s1)[k] == map_of_pairs(s2)[k] by {
            if k == k0 {
                if s1[s1.len() - 1].1 != s2[s1.len() - 1].1 {
                    assert(ks.contains(k0));
                }
            }
        }
    }
}

/// `m2` is `m1` with exactly the gain of destination `d` of mixer
/// entry `e` changed: every other field of the whole model is equal.
pub open spec fn same_but_gain(m1: AppState, m2: AppState, e: int, d: int) -> bool {
    &&& m1.capture@ == m2.capture@
    &&& m1.global_gain == m2.global_gain
    &&& m1.global_mute == m2.global_mute
    &&& m1.hi_z_1 == m2.hi_z_1
    &&& m1.hi_z_2 == m2.hi_z_2
    &&& m1.outputs@ == m2.outputs@
    &&& m1.mixer_entries@.len() == m2.mixer_entries@.len()
    &&& 0 <= e < m1.mixer_entries@.len()
    &&& forall|i: int|
        0 <= i < m1.mixer_entries@.len() && i != e ==> m1.mixer_entries@[i]
            == m2.mixer_entries@[i]
    &&& {
        let e1 = m1.mixer_entries@[e];
        let e2 = m2.mixer_entries@[e];
        &&& e1.name == e2.name
        &&& e1.enabled == e2.enabled
        &&& e1.stereo == e2.stereo
        &&& e1.split == e2.split
        &&& e1.source == e2.source
        &&& e1.source_r == e2.source_r
        &&& e1.dests@.len() == e2.dests@.len()
        &&& 0 <= d < e1.dests@.len()
        &&& forall|j: int| 0 <= j < e1.dests@.len() && j != d ==> e1.dests@[j] == e2.dests@[j]
        &&& {
            let d1 = e1.dests@[d];
            let d2 = e2.dests@[d];
            &&& d1.stereo == d2.stereo
            &&& d1.split == d2.split
            &&& d1.dest == d2.dest
            &&& d1.dest_r == d2.dest_r
        }
    }
}

/// The canonical keys backing destination `d` of mixer entry `e`: the
/// route keys its gain is written through.
pub open spec fn dest_backing_keys(m: AppState, e: int, d: int, n_src: int, n_mix: int) -> Set<
    ControlKey,
> {
    let en = m.mixer_entries@[e];
    keys_of(dest_pairs(en.stereo, en.split, en.source, en.source_r, en.dests@[d], n_src, n_mix))
}

proof fn lemma_entry_dests_differ(
    e1: MixerEntry,
    e2: MixerEntry,
    k: int,
    d: int,
    ks: Set<ControlKey>,
    n_src: int,
    n_mix: int,
)
    requires
        e1.stereo == e2.stereo,
        e1.split == e2.split,
        e1.source == e2.source,
        e1.source_r == e2.source_r,
        e1.dests@.len() == e2.dests@.len(),
        0 <= d < e1.dests@.len(),
        forall|j: int| 0 <= j < e1.dests@.len() && j != d ==> e1.dests@[j] == e2.dests@[j],
        e1.dests@[d].stereo == e2.dests@[d].stereo,
        e1.dests@[d].split == e2.dests@[d].split,
        e1.dests@[d].dest == e2.dests@[d].dest,
        e1.dests@[d].dest_r == e2.dests@[d].dest_r,
        keys_of(
            dest_pairs(e1.stereo, e1.split, e1.source, e1.source_r, e1.dests@[d], n_src, n_mix),
        ).subset_of(ks),
        k <= e1.dests@.len(),
    ensures
        differ_only(
            entry_dests_pairs(e1, k, n_src, n_mix),
            entry_dests_pairs(e2, k, n_src, n_mix),
            ks,
        ),
    decreases k,
{
    if k <= 0 {
    } else {
        lemma_entry_dests_differ(e1, e2, k - 1, d, ks, n_src, n_mix);
        let p1 = dest_pairs(e1.stereo, e1.split, e1.source, e1.source_r, e1.dests@[k - 1], n_src, n_mix);
        let p2 = dest_pairs(e2.stereo, e2.split, e2.source, e2.source_r, e2.dests@[k - 1], n_src, n_mix);
        if k - 1 == d {
            assert(differ_only(p1, p2, ks)) by {
                assert(p1.len() == p2.len());
                assert forall|i: int| 0 <= i < p1.len() implies (#[trigger] p1[i]).0 == p2[i].0 by {}
                assert forall|i: int|
                    0 <= i < p1.len() && (#[trigger] p1[i]).1 != p2[i].1 implies ks.contains(
                    p1[i].0,
                ) by {
                    assert(keys_of(p1).contains(p1[i].0));
                }
            }
        } else {
            assert(e1.dests@[k - 1] == e2.dests@[k - 1]);
            assert(differ_only(p1, p2, ks));
        }
        lemma_differ_only_concat(
            entry_dests_pairs(e1, k - 1, n_src, n_mix),
            p1,
            entry_dests_pairs(e2, k - 1, n_src, n_mix),
            p2,
            ks,
        );
    }
}

proof fn lemma_entries_differ(
    m1: AppState,
    m2: AppState,
    e: int,
    d: int,
    k: int,
    ks: Set<ControlKey>,
    n_src: int,
    n_mix: int,
)
    requires
        same_but_gain(m1, m2, e, d),
        dest_backing_keys(m1, e, d, n_src, n_mix).subset_of(ks),
        k <= m1.mixer_entries@.len(),
    ensures
        differ_only(
            entries_pairs(m1.mixer_entries@, k, n_src, n_mix),
            entries_pairs(m2.mixer_entries@, k, n_src, n_mix),
            ks,
        ),
    decreases k,
{
    if k <= 0 {
    } else {
        lemma_entries_differ(m1, m2, e, d, k - 1, ks, n_src, n_mix);
        let e1 = m1.mixer_entries@[k - 1];
        let e2 = m2.mixer_entries@[k - 1];
        let p1 = entry_pairs(e1, n_src, n_mix);
        let p2 = entry_pairs(e2, n_src, n_mix);
        if k - 1 == e {
            if e1.enabled {
                lemma_entry_dests_differ(e1, e2, e1.dests@.len() as int, d, ks, n_src, n_mix);
            }
            assert(differ_only(p1, p2, ks));
        } else {
            assert(e1 == e2);
            assert(differ_only(p1, p2, ks));
        }
        lemma_differ_only_concat(
            entries_pairs(m1.mixer_entries@, k - 1, n_src, n_mix),
            p1,
            entries_pairs(m2.mixer_entries@, k - 1, n_src, n_mix),
            p2,
            ks,
        );
    }
}

/// Minimality of reconciliation: when two routing models differ only in
/// the gain of one mixer destination, their canonical forms differ only
/// at the route keys backing that destination, so a reconciliation pass
/// between them writes no other control.
pub proof fn lemma_gain_change_minimal(
    m1: AppState,
    m2: AppState,
    e: int,
    d: int,
    n_src: int,
    n_mix: int,
)
    requires
        same_but_gain(m1, m2, e, d),
    ensures
        diff_keys(
            map_of_pairs(normal_seq(m1, n_src, n_mix)),
            map_of_pairs(normal_seq(m2, n_src, n_mix)),
        ).subset_of(dest_backing_keys(m1, e, d, n_src, n_mix)),
{
    let ks = dest_backing_keys(m1, e, d, n_src, n_mix);
    let s1 = normal_seq(m1, n_src, n_mix);
    let s2 = normal_seq(m2, n_src, n_mix);
    let cap1 = capture_pairs(m1.capture@, m1.capture@.len() as int, n_src);
    let cap2 = capture_pairs(m2.capture@, m2.capture@.len() as int, n_src);
    let ent1 = entries_pairs(m1.mixer_entries@, m1.mixer_entries@.len() as int, n_src, n_mix);
    let ent2 = entries_pairs(m2.mixer_entries@, m2.mixer_entries@.len() as int, n_src, n_mix);
    let glo1 = global_pairs(m1.global_gain, m1.global_mute, m1.hi_z_1, m1.hi_z_2);
    let glo2 = global_pairs(m2.global_gain, m2.global_mute, m2.hi_z_1, m2.hi_z_2);
    let out1 = outputs_pairs(m1.outputs@, m1.outputs@.len() as int, n_src);
    let out2 = outputs_pairs(m2.outputs@, m2.outputs@.len() as int, n_src);
    assert(cap1 == cap2);
    assert(glo1 == glo2);
    assert(out1 == out2);
    lemma_entries_differ(m1, m2, e, d, m1.mixer_entries@.len() as int, ks, n_src, n_mix);
    assert(differ_only(cap1, cap2, ks));
    assert(differ_only(glo1, glo2, ks));
    assert(differ_only(out1, out2, ks));
    lemma_differ_only_concat(cap1, ent1, cap2, ent2, ks);
    lemma_differ_only_concat(cap1 + ent1, glo1, cap2 + ent2, glo2, ks);
    lemma_differ_only_concat(cap1 + ent1 + glo1, out1, cap2 + ent2 + glo2, out2, ks);
    lemma_map_of_pairs_differ_only(s1, s2, ks);
    assert forall|k: ControlKey|
        diff_keys(map_of_pairs(s1), map_of_pairs(s2)).contains(k) implies ks.contains(k) by {
        if !ks.contains(k) {
            assert(map_of_pairs(s1)[k] == map_of_pairs(s2)[k]);
        }
    }
}

} // verus!
