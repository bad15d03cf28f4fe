use loam::gpu_timer::{section_ticks, SectionSlots, MAX_SECTIONS};

#[test]
fn sixteen_sections_open_per_frame_and_the_seventeenth_is_refused() {
    let mut slots = SectionSlots::new();
    for k in 0..MAX_SECTIONS {
        assert_eq!(slots.open("pass"), Some(k));
    }
    assert_eq!(slots.open("one too many"), None);
    slots.begin_frame();
    assert_eq!(slots.open("first"), Some(0));
    assert_eq!(slots.names()[0], "first");
    assert_eq!(slots.names()[1], "pass");
}

#[test]
fn a_frame_resolves_only_when_something_is_open_and_no_map_is_in_flight() {
    let mut slots = SectionSlots::new();
    assert_eq!(slots.start_resolve(false), None, "nothing open");
    slots.open("grid");
    slots.open("sky");
    assert_eq!(slots.start_resolve(true), None, "a map is still in flight");
    assert_eq!(slots.take_resolved(), None);
    assert_eq!(slots.start_resolve(false), Some(2));
    assert_eq!(slots.take_resolved(), Some(2));
    assert_eq!(slots.take_resolved(), None, "each resolve is mapped once");
}

fn word(v: u64) -> [u8; 8] {
    v.to_le_bytes()
}

#[test]
fn ticks_are_end_minus_start_and_never_negative() {
    let mut bytes = Vec::new();
    bytes.extend_from_slice(&word(100));
    bytes.extend_from_slice(&word(350));
    bytes.extend_from_slice(&word(u64::MAX - 1));
    bytes.extend_from_slice(&word(u64::MAX));
    bytes.extend_from_slice(&word(900));
    bytes.extend_from_slice(&word(10));
    assert_eq!(section_ticks(&bytes, 3), vec![250, 1, 0]);
    assert_eq!(section_ticks(&bytes, 1), vec![250]);
    assert_eq!(section_ticks(&bytes, 0), Vec::<u64>::new());
    let mut wide = Vec::new();
    wide.extend_from_slice(&[0x01, 0x02, 0x03, 0x04, 0x05, 0x06, 0x07, 0x08]);
    wide.extend_from_slice(&[0x01, 0x02, 0x03, 0x04, 0x05, 0x06, 0x07, 0x09]);
    assert_eq!(section_ticks(&wide, 1), vec![1u64 << 56]);
}
