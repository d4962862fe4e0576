use wonderswan_tools::mod4::{
    determine_format, is_mod_file, parse_mod_channel_rows, parse_samples, read_mod, read_title,
    DecodeError,
};
use wonderswan_tools::song::{ChannelRow, SongFormat};

const PATTERNS_START: usize = 1084;

/// A module with the signature, an order list of `positions`, every pattern
/// they need filled with zeros, and no sample data.
fn module(positions: &[u8]) -> Vec<u8> {
    let max = *positions.iter().max().unwrap_or(&0) as usize;
    let mut b = vec![0u8; PATTERNS_START + (max + 1) * 1024];
    b[..5].copy_from_slice(b"title");
    b[950] = positions.len() as u8;
    b[952..952 + positions.len()].copy_from_slice(positions);
    b[1080..1084].copy_from_slice(b"M.K.");
    b
}

fn set_word(b: &mut [u8], at: usize, word: u16) {
    b[at] = (word >> 8) as u8;
    b[at + 1] = word as u8;
}

fn header(slot: usize) -> usize {
    20 + 30 * slot
}

#[test]
fn signature_is_recognized() {
    let b = module(&[0]);
    assert!(is_mod_file(&b));
    assert_eq!(determine_format(&b), Some(SongFormat::Mod));
}

#[test]
fn other_signature_is_refused() {
    let mut b = module(&[0]);
    b[1080..1084].copy_from_slice(b"FLT4");
    assert!(!is_mod_file(&b));
    assert_eq!(determine_format(&b), None);
    assert_eq!(read_mod(&b).err(), Some(DecodeError::UnrecognizedFormat));
}

#[test]
fn short_buffer_is_refused() {
    let b = module(&[0]);
    assert!(!is_mod_file(&b[..1083]));
    assert!(!is_mod_file(&[]));
    assert_eq!(read_mod(&b[..1000]).err(), Some(DecodeError::UnrecognizedFormat));
}

#[test]
fn title_is_read_as_text() {
    let b = module(&[0]);
    let title = read_title(&b).unwrap();
    assert_eq!(title.len(), 20);
    assert!(title.starts_with("title"));
    assert_eq!(read_title(&b[..19]), None);
}

#[test]
fn invalid_title_is_an_error() {
    let mut b = module(&[0]);
    b[3] = 0xff;
    assert_eq!(read_title(&b), None);
    assert_eq!(read_mod(&b).err(), Some(DecodeError::InvalidTitleEncoding));
}

#[test]
fn empty_order_list_is_an_error() {
    let mut b = module(&[0]);
    b[950] = 0;
    assert_eq!(read_mod(&b).err(), Some(DecodeError::EmptyOrderList));
}

#[test]
fn missing_pattern_is_truncated_input() {
    let b = module(&[0, 2]);
    assert_eq!(read_mod(&b[..b.len() - 1]).err(), Some(DecodeError::TruncatedInput));
}

#[test]
fn missing_sample_data_is_truncated_input() {
    let mut b = module(&[0]);
    set_word(&mut b, header(4) + 22, 3);
    b.extend_from_slice(&[1, 2, 3, 4, 5]);
    assert_eq!(read_mod(&b).err(), Some(DecodeError::TruncatedInput));
    b.push(6);
    assert!(read_mod(&b).is_ok());
}

#[test]
fn order_list_longer_than_input_is_truncated_input() {
    let mut b = module(&[0]);
    b.truncate(1084);
    b[950] = 200;
    assert_eq!(read_mod(&b).err(), Some(DecodeError::TruncatedInput));
}

#[test]
fn decoded_song_has_declared_shape() {
    let b = module(&[1, 3, 0, 3]);
    let song = read_mod(&b).unwrap();
    assert_eq!(song.positions, vec![1, 3, 0, 3]);
    assert_eq!(song.patterns.len(), 4);
    assert_eq!(song.channel_count, 4);
    assert!(song.mangle_notes);
    for pattern in &song.patterns {
        assert_eq!(pattern.rows.len(), 64);
        for row in &pattern.rows {
            assert_eq!(row.channel_rows.len(), 4);
        }
    }
    assert_eq!(song.samples.len(), 31);
}

#[test]
fn channel_row_fields_are_split_across_bytes() {
    let mut b = module(&[0, 1]);
    // pattern 1, row 2, channel 3
    let at = 1084 + 1024 + 2 * 16 + 3 * 4;
    b[at..at + 4].copy_from_slice(&[0x12, 0x34, 0x5c, 0x9a]);
    let song = read_mod(&b).unwrap();
    let cell = song.patterns[1].rows[2].channel_rows[3];
    assert_eq!(cell.sample, 0x15);
    assert_eq!(cell.period, 0x234);
    assert_eq!(cell.effect, 0xc);
    assert_eq!(cell.effect_value, 0x9a);
    assert_eq!(song.patterns[0].rows[2].channel_rows[3].sample, 0);
}

#[test]
fn sample_header_words_are_doubled() {
    let mut b = module(&[0]);
    let h = header(2);
    set_word(&mut b, h + 22, 4);
    b[h + 24] = 0xf7;
    b[h + 25] = 0x40;
    set_word(&mut b, h + 26, 0x1234);
    set_word(&mut b, h + 28, 0x8001);
    b.extend_from_slice(&[9, 8, 7, 6, 5, 4, 3, 2]);
    let song = read_mod(&b).unwrap();
    let s = &song.samples[2];
    assert_eq!(s.length, 8);
    assert_eq!(s.finetune, 7);
    assert_eq!(s.volume, 0x40);
    assert_eq!(s.repeat_start, 0x2468);
    assert_eq!(s.repeat_length, 0x10002);
    assert_eq!(s.sample_data, vec![9, 8, 7, 6, 5, 4, 3, 2]);
    assert_eq!(song.samples[1].sample_data, Vec::<u8>::new());
}

#[test]
fn sample_data_follows_catalog_order() {
    let mut b = module(&[0]);
    set_word(&mut b, header(0) + 22, 1);
    set_word(&mut b, header(5) + 22, 2);
    b.extend_from_slice(&[1, 2, 3, 4, 5, 6]);
    let song = read_mod(&b).unwrap();
    assert_eq!(song.samples[0].sample_data, vec![1, 2]);
    assert_eq!(song.samples[5].sample_data, vec![3, 4, 5, 6]);
    assert_eq!(song.samples[3].length, 0);
}

#[test]
fn sample_name_drops_one_trailing_nul() {
    let mut b = module(&[0]);
    b[header(0)..header(0) + 5].copy_from_slice(b"piano");
    let h = header(1);
    for k in 0..22 {
        b[h + k] = b'a';
    }
    b[header(2)] = 0xc3;
    let song = read_mod(&b).unwrap();
    let mut expected = String::from("piano");
    expected.push_str(&"\0".repeat(16));
    assert_eq!(song.samples[0].name, expected);
    assert_eq!(song.samples[1].name, "a".repeat(22));
    assert_eq!(song.samples[2].name, "");
}

#[test]
fn sample_name_keeps_multibyte_text() {
    let mut b = module(&[0]);
    let h = header(7);
    b[h..h + 6].copy_from_slice(&[0xc3, 0xa9, 0x20, 0xc3, 0xbc, b'x']);
    let song = read_mod(&b).unwrap();
    let mut expected = String::from("\u{e9} \u{fc}x");
    expected.push_str(&"\0".repeat(15));
    assert_eq!(song.samples[7].name, expected);
}

#[test]
fn channel_row_needs_only_its_own_bytes() {
    let mut b = vec![0u8; 1084 + 1024 + 16 * 5 + 16];
    let at = 1084 + 1024 + 16 * 5;
    b[at..at + 4].copy_from_slice(&[0x21, 0xac, 0x30, 0x07]);
    let cells = parse_mod_channel_rows(&b, 1, 5);
    assert_eq!(cells.len(), 4);
    assert_eq!(cells[0], ChannelRow { sample: 0x23, period: 0x1ac, effect: 0, effect_value: 7 });
    assert_eq!(cells[3], ChannelRow { sample: 0, period: 0, effect: 0, effect_value: 0 });
}

#[test]
fn samples_are_read_after_the_last_pattern() {
    let mut b = module(&[0]);
    set_word(&mut b, header(0) + 22, 1);
    set_word(&mut b, header(0) + 28, 0x8000);
    b.extend_from_slice(&[0xaa, 0xbb]);
    let samples = parse_samples(&b, 0).unwrap();
    assert_eq!(samples.len(), 31);
    assert_eq!(samples[0].sample_data, vec![0xaa, 0xbb]);
    assert_eq!(samples[0].repeat_length, 0x10000);
    assert!(parse_samples(&b, 1).is_none());
}
