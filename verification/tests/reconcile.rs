//! Normalizer and reconciler behaviour: canonical keys, the rule
//! table, minimal diffs and idempotent passes.

use scarlett_control::device::{reconcile, ControlKey, Device, DeviceState, ElemValue};
use scarlett_control::state::{AppState, MixerDestination, MixerEntry};

fn labels(prefix: &str, n: usize) -> Vec<String> {
    (0..n).map(|i| format!("{} {}", prefix, i)).collect()
}

fn device(n_src: usize, n_mix: usize) -> Device {
    Device::new(labels("Cap", n_src + 1), labels("Src", n_src), labels("Mix", n_mix))
        .expect("catalog")
}

fn entry(stereo: bool, split: bool, source: usize, source_r: usize) -> MixerEntry {
    MixerEntry {
        name: "e".to_owned(),
        enabled: true,
        stereo,
        split,
        source,
        source_r,
        dests: Vec::new(),
    }
}

fn dest(stereo: bool, split: bool, d: usize, dr: usize, gain: i32) -> MixerDestination {
    MixerDestination { stereo, dest: d, dest_r: dr, split, gain }
}

#[test]
fn keyed_state_insert_get_and_overwrite() {
    let mut s = DeviceState::new();
    assert_eq!(s.get(ControlKey::GlobalKnob), None);
    s.insert(ControlKey::GlobalKnob, ElemValue::Knob { db: -300, muted: false });
    s.insert(ControlKey::CaptureSource { slot: 2 }, ElemValue::Enum(4));
    assert_eq!(
        s.get(ControlKey::GlobalKnob),
        Some(ElemValue::Knob { db: -300, muted: false })
    );
    s.insert(ControlKey::GlobalKnob, ElemValue::Knob { db: 0, muted: true });
    assert_eq!(
        s.get(ControlKey::GlobalKnob),
        Some(ElemValue::Knob { db: 0, muted: true })
    );
    assert_eq!(s.get(ControlKey::CaptureSource { slot: 2 }), Some(ElemValue::Enum(4)));
}

#[test]
fn diff_lists_exactly_the_differing_keys() {
    let mut live = DeviceState::new();
    live.insert(ControlKey::HiZ { input: 0 }, ElemValue::Enum(0));
    live.insert(ControlKey::HiZ { input: 1 }, ElemValue::Enum(1));
    live.insert(ControlKey::GlobalKnob, ElemValue::Knob { db: 0, muted: false });

    let mut want = DeviceState::new();
    want.insert(ControlKey::HiZ { input: 0 }, ElemValue::Enum(1));
    want.insert(ControlKey::HiZ { input: 1 }, ElemValue::Enum(1));
    // GlobalKnob absent on the desired side: not part of the diff.
    want.insert(ControlKey::OutputKnob { output: 0 }, ElemValue::Knob { db: 0, muted: false });

    let d = live.diff(&want);
    assert_eq!(d, vec![ControlKey::HiZ { input: 0 }]);
}

#[test]
fn fan_out_routes_a_mono_source_to_both_buses() {
    let dev = device(8, 6);
    let mut m = AppState::default_for(&dev);
    let mut e = entry(false, false, 3, 4);
    e.dests.push(dest(true, true, 0, 1, -450));
    m.mixer_entries.push(e);

    let s = DeviceState::from_model(&m, &dev);
    let g = ElemValue::Knob { db: -450, muted: false };
    assert_eq!(s.get(ControlKey::RouteGain { source: 3, mix: 0 }), Some(g));
    assert_eq!(s.get(ControlKey::RouteGain { source: 3, mix: 1 }), Some(g));
    assert_eq!(s.get(ControlKey::RouteGain { source: 3, mix: 2 }), None);
    assert_eq!(s.get(ControlKey::RouteGain { source: 4, mix: 0 }), None);
}

#[test]
fn mixdown_sums_both_source_channels_into_one_bus() {
    let dev = device(8, 6);
    let mut m = AppState::default_for(&dev);
    let mut e = entry(true, true, 2, 5);
    e.dests.push(dest(false, false, 4, 5, -100));
    m.mixer_entries.push(e);

    let s = DeviceState::from_model(&m, &dev);
    let g = ElemValue::Knob { db: -100, muted: false };
    assert_eq!(s.get(ControlKey::RouteGain { source: 2, mix: 4 }), Some(g));
    assert_eq!(s.get(ControlKey::RouteGain { source: 5, mix: 4 }), Some(g));
}

#[test]
fn stereo_to_stereo_routes_left_to_left_and_right_to_right() {
    let dev = device(8, 6);
    let mut m = AppState::default_for(&dev);
    let mut e = entry(true, true, 2, 3);
    e.dests.push(dest(true, true, 0, 5, 150));
    m.mixer_entries.push(e);

    let s = DeviceState::from_model(&m, &dev);
    let g = ElemValue::Knob { db: 150, muted: false };
    assert_eq!(s.get(ControlKey::RouteGain { source: 2, mix: 0 }), Some(g));
    assert_eq!(s.get(ControlKey::RouteGain { source: 3, mix: 5 }), Some(g));
    assert_eq!(s.get(ControlKey::RouteGain { source: 2, mix: 5 }), None);
}

#[test]
fn joined_destination_on_last_bus_is_clamped_in_the_keys() {
    let dev = device(8, 6);
    let mut m = AppState::default_for(&dev);
    let mut e = entry(false, false, 1, 2);
    // Joined (non-split) stereo destination whose left index is the
    // last bus: the keys must use buses 4 and 5.
    e.dests.push(dest(true, false, 5, 0, 0));
    m.mixer_entries.push(e);

    let s = DeviceState::from_model(&m, &dev);
    let g = ElemValue::Knob { db: 0, muted: false };
    assert_eq!(s.get(ControlKey::RouteGain { source: 1, mix: 4 }), Some(g));
    assert_eq!(s.get(ControlKey::RouteGain { source: 1, mix: 5 }), Some(g));
}

#[test]
fn disabled_entries_route_nothing() {
    let dev = device(8, 6);
    let mut m = AppState::default_for(&dev);
    let mut e = entry(false, false, 3, 4);
    e.enabled = false;
    e.dests.push(dest(false, false, 0, 1, 0));
    m.mixer_entries.push(e);

    let s = DeviceState::from_model(&m, &dev);
    assert_eq!(s.get(ControlKey::RouteGain { source: 3, mix: 0 }), None);
}

#[test]
fn global_and_output_controls_are_normalized() {
    let dev = device(8, 6);
    let mut m = AppState::default_for(&dev);
    m.global_gain = -600;
    m.global_mute = true;
    m.hi_z_1 = true;
    m.outputs[1].gain = 250;
    m.outputs[1].mute = true;
    m.outputs[2].split = true;
    m.outputs[2].source = (6, 2);

    let s = DeviceState::from_model(&m, &dev);
    assert_eq!(
        s.get(ControlKey::GlobalKnob),
        Some(ElemValue::Knob { db: -600, muted: true })
    );
    assert_eq!(s.get(ControlKey::HiZ { input: 0 }), Some(ElemValue::Enum(1)));
    assert_eq!(s.get(ControlKey::HiZ { input: 1 }), Some(ElemValue::Enum(0)));
    assert_eq!(
        s.get(ControlKey::OutputKnob { output: 1 }),
        Some(ElemValue::Knob { db: 250, muted: true })
    );
    // Output 0 is joined on (0, 1).
    assert_eq!(
        s.get(ControlKey::OutputSource { output: 0, right: false }),
        Some(ElemValue::Enum(0))
    );
    assert_eq!(
        s.get(ControlKey::OutputSource { output: 0, right: true }),
        Some(ElemValue::Enum(1))
    );
    // Output 2 is split and picks its sides independently.
    assert_eq!(
        s.get(ControlKey::OutputSource { output: 2, right: false }),
        Some(ElemValue::Enum(6))
    );
    assert_eq!(
        s.get(ControlKey::OutputSource { output: 2, right: true }),
        Some(ElemValue::Enum(2))
    );
    // Capture defaults: slot i records source i, as option i + 1.
    assert_eq!(s.get(ControlKey::CaptureSource { slot: 0 }), Some(ElemValue::Enum(1)));
}

#[test]
fn second_pass_writes_nothing() {
    let dev = device(8, 6);
    let mut m = AppState::default_for(&dev);
    let mut e = entry(true, false, 2, 3);
    e.dests.push(dest(true, false, 0, 1, -200));
    m.mixer_entries.push(e);
    let desired = DeviceState::from_model(&m, &dev);

    // The live side differs in several controls.
    let mut older = AppState::default_for(&dev);
    older.global_gain = -1200;
    older.hi_z_2 = true;
    let mut live = DeviceState::from_model(&older, &dev);

    let plan = reconcile(&live, &desired);
    assert!(!plan.is_empty());
    live.apply(&plan);
    let again = reconcile(&live, &desired);
    assert_eq!(again.len(), 0);
}

#[test]
fn an_unassigned_capture_slot_selects_off() {
    let dev = device(8, 6);
    let mut m = AppState::default_for(&dev);
    m.capture[2] = None;
    let s = DeviceState::from_model(&m, &dev);
    assert_eq!(s.get(ControlKey::CaptureSource { slot: 2 }), Some(ElemValue::Enum(0)));
    assert_eq!(s.get(ControlKey::CaptureSource { slot: 3 }), Some(ElemValue::Enum(4)));
}

#[test]
fn writes_to_absent_controls_are_ignored() {
    let mut live = DeviceState::new();
    live.insert(ControlKey::HiZ { input: 0 }, ElemValue::Enum(0));
    let plan = vec![
        (ControlKey::HiZ { input: 0 }, ElemValue::Enum(1)),
        (ControlKey::OutputKnob { output: 9 }, ElemValue::Knob { db: 1, muted: false }),
    ];
    live.apply(&plan);
    assert_eq!(live.get(ControlKey::HiZ { input: 0 }), Some(ElemValue::Enum(1)));
    assert_eq!(live.get(ControlKey::OutputKnob { output: 9 }), None);
}

#[test]
fn gain_change_touches_only_that_destination() {
    let dev = device(8, 6);
    let mut m1 = AppState::default_for(&dev);
    let mut e = entry(false, false, 3, 4);
    e.dests.push(dest(false, false, 2, 3, 0));
    e.dests.push(dest(true, false, 4, 5, 0));
    m1.mixer_entries.push(e);

    let mut m2 = AppState::default_for(&dev);
    let mut e2 = entry(false, false, 3, 4);
    e2.dests.push(dest(false, false, 2, 3, -900));
    e2.dests.push(dest(true, false, 4, 5, 0));
    m2.mixer_entries.push(e2);

    let s1 = DeviceState::from_model(&m1, &dev);
    let s2 = DeviceState::from_model(&m2, &dev);
    let d = s1.diff(&s2);
    assert_eq!(d, vec![ControlKey::RouteGain { source: 3, mix: 2 }]);
}
