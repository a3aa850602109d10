//! Channel-allocator behaviour: free-slot search, fallback, joined-pair
//! clamping and the channel budget.

use scarlett_control::device::Device;
use scarlett_control::state::{
    find_false_pair, find_first_free, joined_pair, AppState, MixerDestination, MixerEntry,
    CHANNEL_BUDGET,
};

fn labels(prefix: &str, n: usize) -> Vec<String> {
    (0..n).map(|i| format!("{} {}", prefix, i)).collect()
}

fn device(n_src: usize, n_mix: usize) -> Device {
    Device::new(labels("Cap", n_src + 1), labels("Src", n_src), labels("Mix", n_mix))
        .expect("catalog")
}

fn dest(d: usize, dr: usize, stereo: bool) -> MixerDestination {
    MixerDestination { stereo, dest: d, dest_r: dr, split: false, gain: 0 }
}

fn entry_with_dests(stereo: bool, dests: Vec<MixerDestination>) -> MixerEntry {
    MixerEntry {
        name: "e".to_owned(),
        enabled: true,
        stereo,
        split: false,
        source: 0,
        source_r: 1,
        dests,
    }
}

#[test]
fn allocator_picks_first_free_slot_and_pair() {
    // Pool occupancy [true, true, false, false, true, false].
    let used = vec![true, true, false, false, true, false];
    assert_eq!(find_first_free(&used), Some(2));
    assert_eq!(find_false_pair(used.as_slice()), Some(2));

    // The same through add_dest: destinations occupy slots 0, 1 and 4.
    let dev = device(8, 6);
    let mut mono = entry_with_dests(
        false,
        vec![dest(0, 1, true), dest(4, 5, false)],
    );
    mono.add_dest(&dev);
    assert_eq!(mono.dests.len(), 3);
    assert_eq!(mono.dests[2].dest, 2);
    assert!(!mono.dests[2].stereo);
    assert_eq!(mono.dests[2].gain, 0);

    let mut stereo = entry_with_dests(
        true,
        vec![dest(0, 1, true), dest(4, 5, false)],
    );
    stereo.add_dest(&dev);
    assert_eq!(stereo.dests.len(), 3);
    assert_eq!(stereo.dests[2].dest, 2);
    assert_eq!(stereo.dests[2].dest_r, 3);
    assert!(stereo.dests[2].stereo);
}

#[test]
fn allocator_falls_back_to_slot_zero_when_full() {
    let used = vec![true; 6];
    assert_eq!(find_first_free(&used), None);
    assert_eq!(find_false_pair(used.as_slice()), None);

    let dev = device(8, 6);
    let full = vec![
        dest(0, 1, true),
        dest(2, 3, true),
        dest(4, 5, true),
    ];
    let mut mono = entry_with_dests(false, full.clone());
    mono.add_dest(&dev);
    assert_eq!(mono.dests[3].dest, 0);
    assert_eq!(mono.dests[3].dest_r, 1);

    let mut stereo = entry_with_dests(true, full);
    stereo.add_dest(&dev);
    assert_eq!(stereo.dests[3].dest, 0);
    assert_eq!(stereo.dests[3].dest_r, 1);
}

#[test]
fn allocation_exhausted_signals_collision() {
    let dev = device(8, 6);
    let full = entry_with_dests(
        true,
        vec![dest(0, 1, true), dest(2, 3, true), dest(4, 5, true)],
    );
    assert!(full.allocation_exhausted(&dev, false));
    assert!(full.allocation_exhausted(&dev, true));

    let half = entry_with_dests(true, vec![dest(0, 1, true)]);
    assert!(!half.allocation_exhausted(&dev, false));
    assert!(!half.allocation_exhausted(&dev, true));

    // A single free slot serves a mono request but no stereo pair.
    let holey = entry_with_dests(
        true,
        vec![dest(0, 1, true), dest(3, 4, true)],
    );
    assert!(!holey.allocation_exhausted(&dev, false));
    assert!(holey.allocation_exhausted(&dev, true));
}

#[test]
fn joined_pair_is_clamped_before_any_key_is_made() {
    // left on the very last option is pulled down by one.
    assert_eq!(joined_pair(5, 6), (4, 5));
    // an in-range left keeps its place, right is its neighbour.
    assert_eq!(joined_pair(2, 6), (2, 3));
    // a stale left beyond the list is pulled in as well.
    assert_eq!(joined_pair(17, 6), (4, 5));
}

#[test]
fn new_entry_starts_mono_on_the_first_pair() {
    let dev = device(8, 6);
    let e = MixerEntry::new(&dev);
    assert_eq!(e.name, "Unnamed");
    assert!(e.enabled);
    assert!(!e.stereo);
    assert_eq!(e.source, 0);
    assert_eq!(e.source_r, 1);
    assert_eq!(e.dests.len(), 1);
    assert_eq!(e.dests[0].dest, 0);
    assert_eq!(e.dests[0].dest_r, 1);
}

#[test]
fn remaining_channels_counts_enabled_entries() {
    let dev = device(8, 6);
    let mut m = AppState::default_for(&dev);
    assert_eq!(m.remaining_channels(), CHANNEL_BUDGET);
    let mut mono = entry_with_dests(false, vec![dest(0, 1, false)]);
    mono.enabled = true;
    let mut stereo = entry_with_dests(true, vec![dest(0, 1, true)]);
    stereo.enabled = true;
    let mut off = entry_with_dests(true, vec![dest(0, 1, true)]);
    off.enabled = false;
    m.mixer_entries.push(mono);
    m.mixer_entries.push(stereo);
    m.mixer_entries.push(off);
    assert_eq!(m.remaining_channels(), CHANNEL_BUDGET - 3);
}

#[test]
fn catalog_rejects_too_short_lists() {
    assert!(Device::new(labels("c", 2), labels("s", 1), labels("m", 6)).is_none());
    assert!(Device::new(labels("c", 2), labels("s", 8), labels("m", 1)).is_none());
    let d = Device::new(labels("c", 2), labels("s", 8), labels("m", 6)).unwrap();
    assert_eq!(d.audio_sources.len(), 8);
    assert_eq!(d.mixer_destinations.len(), 6);
}
