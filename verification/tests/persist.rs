//! Persistence: the byte codec's round trip and its leniency, and the
//! stale-index recovery applied to loaded state.

use scarlett_control::codec::{decode, encode};
use scarlett_control::device::Device;
use scarlett_control::state::{AppState, MixerDestination, MixerEntry, GAIN_MAX, GAIN_MIN};

fn labels(prefix: &str, n: usize) -> Vec<String> {
    (0..n).map(|i| format!("{} {}", prefix, i)).collect()
}

fn device(n_src: usize, n_mix: usize) -> Device {
    Device::new(labels("Cap", n_src + 1), labels("Src", n_src), labels("Mix", n_mix))
        .expect("catalog")
}

fn entry(name: &str, stereo: bool, source: usize) -> MixerEntry {
    MixerEntry {
        name: name.to_owned(),
        enabled: true,
        stereo,
        split: stereo,
        source,
        source_r: source + 1,
        dests: Vec::new(),
    }
}

fn dest(stereo: bool, d: usize, gain: i32) -> MixerDestination {
    MixerDestination { stereo, dest: d, dest_r: d + 1, split: false, gain }
}

fn rich_model() -> AppState {
    let dev = device(8, 6);
    let mut m = AppState::default_for(&dev);
    let mut e1 = entry("Vocals", false, 0);
    e1.dests.push(dest(false, 0, -150));
    let mut e2 = entry("Guitar Bus", true, 2);
    e2.dests.push(dest(true, 2, 0));
    e2.dests.push(dest(false, 4, -600));
    let mut e3 = entry("Synthé 🎛", true, 4);
    e3.enabled = false;
    e3.dests.push(dest(true, 0, 300));
    let e4 = entry("", false, 7);
    let mut e5 = entry("Click", false, 5);
    e5.dests.push(dest(false, 5, GAIN_MIN));
    e5.dests.push(dest(false, 3, GAIN_MAX));
    m.mixer_entries.push(e1);
    m.mixer_entries.push(e2);
    m.mixer_entries.push(e3);
    m.mixer_entries.push(e4);
    m.mixer_entries.push(e5);
    m.capture[3] = None;
    m.global_gain = -25;
    m.global_mute = true;
    m.hi_z_1 = true;
    m.outputs[0].gain = -301;
    m.outputs[2].mute = true;
    m.outputs[2].split = true;
    m.outputs[2].source = (6, 0);
    m
}

#[test]
fn round_trip_reproduces_the_model_field_for_field() {
    let m = rich_model();
    let bytes = encode(&m);
    let back = decode(&bytes).expect("decodes");
    assert_eq!(back, m);
}

#[test]
fn round_trip_of_the_default_model() {
    let m = AppState::default();
    let bytes = encode(&m);
    assert_eq!(decode(&bytes).expect("decodes"), m);
}

#[test]
fn empty_bytes_decode_to_the_default_model() {
    assert_eq!(decode(&Vec::new()).expect("decodes"), AppState::default());
}

#[test]
fn truncation_at_a_field_boundary_defaults_the_rest() {
    let m = rich_model();
    let bytes = encode(&m);
    // The capture section of a model with an empty capture list is its
    // 8-byte count alone; older state that ended there decodes with
    // every later field at its default.
    let mut short = AppState::default();
    short.capture = m.capture.clone();
    let short_bytes = encode(&short);
    // capture section length = 8 (count) + 9 bytes per assigned slot,
    // 1 per unassigned one.
    let cap_len = 8 + m.capture.iter().map(|c| if c.is_some() { 9 } else { 1 }).sum::<usize>();
    let truncated: Vec<u8> = bytes[..cap_len].to_vec();
    let back = decode(&truncated).expect("decodes");
    assert_eq!(back, short);
}

#[test]
fn corrupt_bytes_are_rejected() {
    assert_eq!(decode(&vec![7u8]), None);
    let m = rich_model();
    let mut bytes = encode(&m);
    // Cutting inside a field (not at a boundary) is rejected.
    bytes.pop();
    assert_eq!(decode(&bytes), None);
}

#[test]
fn trailing_junk_is_rejected() {
    let m = rich_model();
    let mut bytes = encode(&m);
    bytes.push(0);
    assert_eq!(decode(&bytes), None);
}

#[test]
fn stale_indices_are_clamped_and_flagged() {
    // Persisted state referencing source 40 against a device that
    // reports only 30 options: clamped to 29, and the entry is marked.
    let dev = Device::new(labels("Cap", 31), labels("Src", 30), labels("Mix", 6)).unwrap();
    let mut m = AppState::default();
    let mut e = entry("Old", false, 40);
    e.dests.push(dest(false, 2, 0));
    let ok = entry("Fine", false, 3);
    m.mixer_entries.push(e);
    m.mixer_entries.push(ok);
    m.capture = vec![Some(40), Some(12), None];

    let (clean, report) = m.sanitize(&dev);
    assert_eq!(clean.mixer_entries[0].source, 29);
    assert_eq!(clean.mixer_entries[1].source, 3);
    assert_eq!(clean.capture[0], Some(29));
    assert_eq!(clean.capture[1], Some(12));
    assert_eq!(clean.capture[2], None);
    assert_eq!(report.entries, vec![0]);
    assert_eq!(report.capture, vec![0]);
    assert_eq!(report.outputs, Vec::<usize>::new());
}

#[test]
fn stale_bus_indices_and_gains_are_clamped() {
    let dev = device(8, 6);
    let mut m = AppState::default();
    let mut e = entry("Hot", false, 2);
    e.dests.push(MixerDestination { stereo: false, dest: 9, dest_r: 11, split: false, gain: 700 });
    m.mixer_entries.push(e);
    m.global_gain = -20000;
    m.outputs[1].gain = 9999;
    m.outputs[1].source = (99, 0);

    let (clean, report) = m.sanitize(&dev);
    assert_eq!(clean.mixer_entries[0].dests[0].dest, 5);
    assert_eq!(clean.mixer_entries[0].dests[0].dest_r, 5);
    assert_eq!(clean.mixer_entries[0].dests[0].gain, GAIN_MAX);
    assert_eq!(clean.global_gain, GAIN_MIN);
    assert_eq!(clean.outputs[1].gain, GAIN_MAX);
    assert_eq!(clean.outputs[1].source, (7, 0));
    assert_eq!(report.entries, vec![0]);
    assert_eq!(report.outputs, vec![1]);
}

#[test]
fn sanitize_leaves_a_clean_model_unflagged() {
    let dev = device(8, 6);
    let mut m = AppState::default_for(&dev);
    let mut e = entry("Clean", false, 2);
    e.dests.push(dest(false, 1, -100));
    m.mixer_entries.push(e);
    let (clean, report) = m.sanitize(&dev);
    assert_eq!(clean, m);
    assert!(report.capture.is_empty());
    assert!(report.entries.is_empty());
    assert!(report.outputs.is_empty());
}
