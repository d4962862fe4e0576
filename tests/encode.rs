use wonderswan_tools::mod4::read_mod;
use wonderswan_tools::song::{ChannelRow, Pattern, PatternRow, Sample, Song};
use wonderswan_tools::song_writer::{
    device_note, encode_song, note_for_period, pack_preview, sample_warnings,
};

fn looped(length: u32, repeat_start: u32, repeat_length: u32, data: Vec<u8>) -> Sample {
    let mut s = Sample::empty();
    s.length = length;
    s.repeat_start = repeat_start;
    s.repeat_length = repeat_length;
    s.sample_data = data;
    s
}

fn blank_row() -> ChannelRow {
    ChannelRow { sample: 0, period: 0, effect: 0, effect_value: 0 }
}

fn song_with(cells: Vec<(usize, usize, ChannelRow)>, samples: Vec<Sample>) -> Song {
    let mut rows = Vec::new();
    for _ in 0..64 {
        rows.push(PatternRow { channel_rows: vec![blank_row(); 4] });
    }
    for (r, c, cell) in cells {
        rows[r].channel_rows[c] = cell;
    }
    Song {
        patterns: vec![Pattern { rows }],
        positions: vec![0],
        samples,
        channel_count: 4,
        mangle_notes: true,
    }
}

fn empty_catalog() -> Vec<Sample> {
    (0..31).map(|_| Sample::empty()).collect()
}

const PATTERN_DATA: usize = 32 + 31 * 32 + 256;

#[test]
fn empty_sample_has_zero_fields() {
    let s = Sample::empty();
    assert_eq!(s.name, "");
    assert_eq!(s.length, 0);
    assert_eq!(s.repeat_length, 0);
    assert!(s.sample_data.is_empty());
}

#[test]
fn note_table_lookups() {
    assert_eq!(note_for_period(0), 0);
    assert_eq!(note_for_period(856), 0x01);
    assert_eq!(note_for_period(428), 0x0d);
    assert_eq!(note_for_period(113), 0x24);
    assert_eq!(note_for_period(600), 0);
}

#[test]
fn preview_of_sixteen_byte_loop_is_one_to_one() {
    let mut data = vec![0u8; 4];
    data.extend((0..16u8).map(|k| k.wrapping_mul(17).wrapping_add(3)));
    let s = looped(20, 4, 16, data.clone());
    let preview = pack_preview(&s);
    assert_eq!(preview.len(), 16);
    for k in 0..16 {
        let n = data[4 + k].wrapping_add(0x80) >> 4;
        assert_eq!(preview[k], n * 16 + n);
    }
    assert_eq!(preview[0], 0x88);
    assert_eq!(preview[15], 0x88);
}

#[test]
fn preview_of_long_loop_reads_every_eighth_byte() {
    let data: Vec<u8> = (0..128u32).map(|j| (j * 2) as u8).collect();
    let s = looped(128, 0, 128, data.clone());
    let preview = pack_preview(&s);
    for k in 0..16 {
        let hi = data[8 * k].wrapping_add(0x80) >> 4;
        let lo = data[8 * k + 4].wrapping_add(0x80) >> 4;
        assert_eq!(preview[k], hi * 16 + lo);
    }
    assert_eq!(preview[0], 0x88);
    assert_eq!(preview[1], 0x99);
    assert_eq!(preview[8], 0x00);
}

#[test]
fn preview_puts_first_sample_in_high_nibble() {
    let data = vec![0x70u8, 0x00];
    let mut full = Vec::new();
    for _ in 0..16 {
        full.extend_from_slice(&data);
    }
    let preview = pack_preview(&looped(32, 0, 32, full));
    assert!(preview.iter().all(|&b| b == 0xf8));
}

#[test]
fn preview_is_zero_without_supported_loop() {
    let zeros = vec![0u8; 16];
    assert_eq!(pack_preview(&looped(100, 0, 48, vec![7; 100])), zeros);
    assert_eq!(pack_preview(&looped(0, 0, 16, Vec::new())), zeros);
    assert_eq!(pack_preview(&looped(16, 8, 16, vec![7; 16])), zeros);
}

#[test]
fn octave_offsets_follow_loop_length() {
    let mut samples = empty_catalog();
    samples[0] = looped(64, 0, 64, vec![0; 64]);
    samples[1] = looped(16, 0, 16, vec![0; 16]);
    samples[2] = looped(128, 0, 128, vec![0; 128]);
    samples[23] = looped(16, 0, 16, vec![0; 16]);
    assert_eq!(device_note(428, 1, &samples, true), 0x0d + 12);
    assert_eq!(device_note(428, 2, &samples, true), 0x0d + 36);
    assert_eq!(device_note(428, 3, &samples, true), 0x0d);
    assert_eq!(device_note(428, 24, &samples, true), 0x0d);
    assert_eq!(device_note(428, 2, &samples, false), 0x0d);
    assert_eq!(device_note(600, 2, &samples, true), 0);
    assert_eq!(device_note(428, 0, &samples, true), 0x0d);
}

#[test]
fn encoded_length_counts_every_part() {
    let song = song_with(Vec::new(), empty_catalog());
    assert_eq!(encode_song(&song).len(), 32 + 31 * 32 + 256 + 64 * 4 * 4);
    let mut two = song_with(Vec::new(), empty_catalog());
    let rows = (0..64).map(|_| PatternRow { channel_rows: vec![blank_row(); 4] }).collect();
    two.patterns.push(Pattern { rows });
    assert_eq!(encode_song(&two).len(), 32 + 31 * 32 + 256 + 2 * 64 * 4 * 4);
}

#[test]
fn order_list_is_copied_then_marked_ended() {
    let mut song = song_with(Vec::new(), empty_catalog());
    song.positions = vec![0, 0, 0];
    let out = encode_song(&song);
    let order = &out[32 + 31 * 32..PATTERN_DATA];
    assert_eq!(&order[..3], &[0, 0, 0]);
    assert!(order[3..].iter().all(|&b| b == 0xff));
}

#[test]
fn sample_block_holds_volume_and_preview() {
    let mut samples = empty_catalog();
    samples[3] = looped(16, 0, 16, vec![0x10; 16]);
    samples[3].volume = 0x33;
    let out = encode_song(&song_with(Vec::new(), samples));
    let block = &out[32 + 3 * 32..32 + 4 * 32];
    assert_eq!(block[0], 0x33);
    assert!(block[1..16].iter().all(|&b| b == 0));
    assert!(block[16..].iter().all(|&b| b == 0x99));
}

#[test]
fn selected_sample_carries_over_rows() {
    let mut samples = empty_catalog();
    samples[0] = looped(64, 0, 64, vec![0; 64]);
    samples[1] = looped(16, 0, 16, vec![0; 16]);
    let cells = vec![
        (0, 1, ChannelRow { sample: 1, period: 428, effect: 0, effect_value: 0 }),
        (1, 1, ChannelRow { sample: 0, period: 856, effect: 0xc, effect_value: 0x20 }),
        (2, 1, ChannelRow { sample: 2, period: 0, effect: 0, effect_value: 0 }),
        (3, 1, ChannelRow { sample: 0, period: 856, effect: 0, effect_value: 0 }),
        (3, 2, ChannelRow { sample: 0, period: 856, effect: 0, effect_value: 0 }),
    ];
    let out = encode_song(&song_with(cells, samples));
    let cell = |r: usize, c: usize| &out[PATTERN_DATA + r * 16 + c * 4..PATTERN_DATA + r * 16 + c * 4 + 4];
    assert_eq!(cell(0, 1), &[0x0d + 12, 1, 0, 0]);
    assert_eq!(cell(1, 1), &[0x01 + 12, 0, 0xc, 0x20]);
    assert_eq!(cell(2, 1), &[0, 2, 0, 0]);
    assert_eq!(cell(3, 1), &[0x01 + 36, 0, 0, 0]);
    assert_eq!(cell(3, 2), &[0x01, 0, 0, 0]);
}

#[test]
fn loop_warnings_name_regular_slots() {
    let mut samples = empty_catalog();
    samples[0] = looped(10, 0, 10, vec![0; 10]);
    samples[4] = looped(16, 0, 16, vec![0; 16]);
    samples[6] = looped(0, 0, 10, Vec::new());
    samples[22] = looped(10, 0, 2, vec![0; 10]);
    samples[23] = looped(10, 0, 2, vec![0; 10]);
    let song = song_with(Vec::new(), samples);
    assert_eq!(sample_warnings(&song), vec![0, 22]);
}

#[test]
fn decoded_fixture_encodes_preview_and_note() {
    let mut b = vec![0u8; 1084 + 1024];
    b[950] = 1;
    b[952] = 0;
    b[1080..1084].copy_from_slice(b"M.K.");
    // sample 1: 16 words of data, loop of 16 words from 0
    b[20 + 22..20 + 24].copy_from_slice(&[0, 16]);
    b[20 + 25] = 0x40;
    b[20 + 28..20 + 30].copy_from_slice(&[0, 16]);
    // pattern 0, row 0, channel 0: sample 1, period 428
    b[1084..1088].copy_from_slice(&[0x01, 0xac, 0x10, 0x00]);
    b.extend((0..32u32).map(|j| (j * 8) as u8));
    let song = read_mod(&b).unwrap();
    let out = encode_song(&song);
    assert_eq!(out.len(), PATTERN_DATA + 1024);
    assert_eq!(out[32], 0x40);
    assert_eq!(
        &out[32 + 16..32 + 32],
        &[0x88, 0x99, 0xaa, 0xbb, 0xcc, 0xdd, 0xee, 0xff, 0x00, 0x11, 0x22, 0x33, 0x44, 0x55, 0x66, 0x77]
    );
    assert_eq!(out[32 + 31 * 32], 0);
    assert_eq!(out[32 + 31 * 32 + 1], 0xff);
    assert_eq!(&out[PATTERN_DATA..PATTERN_DATA + 4], &[0x0d + 24, 1, 0, 0]);
    assert!(out[PATTERN_DATA + 4..].iter().all(|&x| x == 0));
}
