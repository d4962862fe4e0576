use crate::song::{ChannelRow, Pattern, PatternRow, Sample, Song, SongFormat, PATTERN_ROWS, SAMPLE_SLOTS};
use vstd::prelude::*;
use vstd::slice::{slice_subrange, slice_to_vec};
use vstd::string::{StrSliceExecFns, StringExecFns};
use vstd::utf8::{decode_utf8, valid_utf8};

verus! {

/// Offset of the four-byte format signature.
pub const SIGNATURE_START: usize = 1080;

/// Offset of the first pattern; also the size of the fixed header.
pub const PATTERNS_START: usize = 1084;

/// Size of one pattern: 64 rows of four 4-byte channel entries.
pub const PATTERN_LENGTH: usize = 1024;

/// Size of the title field at the start of the file.
pub const TITLE_LENGTH: usize = 20;

/// Offset of the byte that gives the length of the order list.
pub const POSITION_COUNT_AT: usize = 950;

/// Offset of the order list.
pub const POSITIONS_START: usize = 952;

/// Offset of the first sample header.
pub const SAMPLE_HEADER_START: usize = 20;

/// Distance between two sample headers.
pub const SAMPLE_HEADER_LENGTH: usize = 30;

/// Size of the name field of a sample header.
pub const SAMPLE_NAME_LENGTH: usize = 22;

/// Number of channels of this format.
pub const CHANNEL_COUNT: usize = 4;

/// Why a module could not be decoded.
#[derive(Clone, Copy, Debug, PartialEq, Eq, Structural)]
pub enum DecodeError {
    UnrecognizedFormat,
    InvalidTitleEncoding,
    EmptyOrderList,
    TruncatedInput,
}

/// The bytes hold the four-channel signature "M.K." at its fixed offset.
pub open spec fn signature_matches(b: Seq<u8>) -> bool {
    &&& b.len() >= PATTERNS_START
    &&& b.subrange(SIGNATURE_START as int, PATTERNS_START as int) == seq![0x4du8, 0x2eu8, 0x4bu8, 0x2eu8]
}

/// A big-endian 16-bit word.
pub open spec fn be_word(b: Seq<u8>, at: int) -> int {
    b[at] * 0x100 + b[at + 1]
}

/// Offset of the header of sample slot `i`.
pub open spec fn header_at(i: int) -> int {
    SAMPLE_HEADER_START + SAMPLE_HEADER_LENGTH * i
}

/// The data length in bytes of sample slot `i`: twice its word count.
pub open spec fn sample_length_at(b: Seq<u8>, i: int) -> int {
    2 * be_word(b, header_at(i) + 22)
}

/// Where the data of sample slot `i` begins when sample data starts at
/// `base`: the data of the slots before it lie back to back.
pub open spec fn sample_data_start(b: Seq<u8>, base: int, i: nat) -> int
    decreases i,
{
    if i == 0 {
        base
    } else {
        sample_data_start(b, base, (i - 1) as nat) + sample_length_at(b, i - 1)
    }
}

/// The order list that the header declares.
pub open spec fn positions_of(b: Seq<u8>) -> Seq<u8> {
    b.subrange(POSITIONS_START as int, POSITIONS_START + b[POSITION_COUNT_AT as int])
}

/// The largest value of a sequence; 0 when it is empty.
pub open spec fn max_of(s: Seq<u8>) -> u8
    decreases s.len(),
{
    if s.len() == 0 {
        0
    } else {
        let m = max_of(s.drop_last());
        if s.last() > m {
            s.last()
        } else {
            m
        }
    }
}

/// Where the pattern block ends and sample data begins.
pub open spec fn patterns_end(b: Seq<u8>) -> int {
    PATTERNS_START + (max_of(positions_of(b)) + 1) * PATTERN_LENGTH
}

/// Everything that the header declares lies inside the bytes.
pub open spec fn input_complete(b: Seq<u8>) -> bool {
    &&& POSITIONS_START + b[POSITION_COUNT_AT as int] <= b.len()
    &&& patterns_end(b) <= b.len()
    &&& sample_data_start(b, patterns_end(b), SAMPLE_SLOTS as nat) <= b.len()
}

/// The error that decoding the bytes gives, checked in this order; `None`
/// when they decode.
pub open spec fn decode_error(b: Seq<u8>) -> Option<DecodeError> {
    if !signature_matches(b) {
        Some(DecodeError::UnrecognizedFormat)
    } else if !valid_utf8(b.subrange(0, TITLE_LENGTH as int)) {
        Some(DecodeError::InvalidTitleEncoding)
    } else if b[POSITION_COUNT_AT as int] == 0 {
        Some(DecodeError::EmptyOrderList)
    } else if !input_complete(b) {
        Some(DecodeError::TruncatedInput)
    } else {
        None
    }
}

/// Offset of channel `c` of row `r` of pattern `p`.
pub open spec fn channel_row_offset(p: int, r: int, c: int) -> int {
    PATTERNS_START + PATTERN_LENGTH * p + 16 * r + 4 * c
}

/// The channel entry stored at `at`: the sample number takes its high
/// nibble from byte 0 and its low nibble from the high nibble of byte 2; the
/// period is the low nibble of byte 0 over byte 1; the effect is the low
/// nibble of byte 2; byte 3 is the effect parameter.
pub open spec fn channel_row_from(b: Seq<u8>, at: int) -> ChannelRow {
    ChannelRow {
        sample: ((b[at] / 16) * 16 + b[at + 2] / 16) as u8,
        period: ((b[at] % 16) * 0x100 + b[at + 1]) as u16,
        effect: (b[at + 2] % 16) as u8,
        effect_value: b[at + 3],
    }
}

/// The name stored in a 22-byte field at `at`: when the field is valid
/// UTF-8, its text without the trailing NUL if it ends in one, and the whole
/// text otherwise; when it is not valid UTF-8, empty.
pub open spec fn sample_name_of(b: Seq<u8>, at: int) -> Seq<char> {
    let field = b.subrange(at, at + SAMPLE_NAME_LENGTH);
    if valid_utf8(field) {
        let text = decode_utf8(field);
        if text.len() > 0 && text.last() == '\0' {
            text.drop_last()
        } else {
            text
        }
    } else {
        Seq::empty()
    }
}

/// Sample `s` is slot `i` of the catalog in `b`, with its data at `data_at`.
pub open spec fn sample_decoded(s: Sample, b: Seq<u8>, i: int, data_at: int) -> bool {
    let h = header_at(i);
    &&& s.name@ == sample_name_of(b, h)
    &&& s.length == sample_length_at(b, i)
    &&& s.finetune == b[h + 24] % 16
    &&& s.volume == b[h + 25]
    &&& s.repeat_start == 2 * be_word(b, h + 26)
    &&& s.repeat_length == 2 * be_word(b, h + 28)
    &&& s.sample_data@ == b.subrange(data_at, data_at + s.length)
}

/// `song` is what the bytes `b` hold.
pub open spec fn song_decoded(song: Song, b: Seq<u8>) -> bool {
    &&& song.well_formed()
    &&& song.channel_count == CHANNEL_COUNT
    &&& song.mangle_notes
    &&& song.positions@ == positions_of(b)
    &&& song.patterns@.len() == max_of(song.positions@) + 1
    &&& forall|p: int, r: int, c: int|
        0 <= p < song.patterns@.len() && 0 <= r < PATTERN_ROWS && 0 <= c < CHANNEL_COUNT
            ==> (#[trigger] song.patterns@[p].rows@[r].channel_rows@[c]) == channel_row_from(
            b,
            channel_row_offset(p, r, c),
        )
    &&& forall|i: int|
        0 <= i < SAMPLE_SLOTS ==> sample_decoded(
            #[trigger] song.samples@[i],
            b,
            i,
            sample_data_start(b, patterns_end(b), i as nat),
        )
}

/// Relies on String::from_utf8: it succeeds exactly on valid UTF-8, and the
/// string then holds the characters that the bytes encode.
#[verifier::external_body]
fn text_from_utf8(bytes: Vec<u8>) -> (r: Option<String>)
    ensures
        r is Some <==> valid_utf8(bytes@),
        r is Some ==> r->Some_0@ == decode_utf8(bytes@),
{
    match String::from_utf8(bytes) {
        Ok(s) => Some(s),
        Err(_) => None,
    }
}

/// Whether the bytes carry the four-channel signature.
pub fn is_mod_file(mod_bytes: &[u8]) -> (r: bool)
    ensures
        r == signature_matches(mod_bytes@),
{
    if mod_bytes.len() < PATTERNS_START {
        return false;
    }
    let r = mod_bytes[SIGNATURE_START] == 0x4d && mod_bytes[SIGNATURE_START + 1] == 0x2e
        && mod_bytes[SIGNATURE_START + 2] == 0x4b && mod_bytes[SIGNATURE_START + 3] == 0x2e;
    assert(r == (mod_bytes@.subrange(SIGNATURE_START as int, PATTERNS_START as int) =~= seq![0x4du8, 0x2eu8, 0x4bu8, 0x2eu8]));
    r
}

/// The format that the bytes are in, if it is one that can be decoded.
pub fn determine_format(input_bytes: &[u8]) -> (r: Option<SongFormat>)
    ensures
        r == (if signature_matches(input_bytes@) {
            Some(SongFormat::Mod)
        } else {
            None
        }),
{
    if is_mod_file(input_bytes) {
        Some(SongFormat::Mod)
    } else {
        None
    }
}

/// The title field as text; `None` when the bytes are too short for it or
/// it is not valid UTF-8.
pub fn read_title(mod_bytes: &[u8]) -> (r: Option<String>)
    ensures
        r is Some <==> mod_bytes@.len() >= TITLE_LENGTH && valid_utf8(
            mod_bytes@.subrange(0, TITLE_LENGTH as int),
        ),
        r is Some ==> r->Some_0@ == decode_utf8(mod_bytes@.subrange(0, TITLE_LENGTH as int)),
{
    if mod_bytes.len() < TITLE_LENGTH {
        return None;
    }
    text_from_utf8(slice_to_vec(slice_subrange(mod_bytes, 0, TITLE_LENGTH)))
}


/// The four channel entries of row `row_index` of pattern `pattern_index`.
pub fn parse_mod_channel_rows(mod_bytes: &[u8], pattern_index: u8, row_index: u8) -> (r: Vec<ChannelRow>)
    requires
        row_index < PATTERN_ROWS,
        mod_bytes@.len() >= channel_row_offset(pattern_index as int, row_index as int, CHANNEL_COUNT as int),
    ensures
        r@.len() == CHANNEL_COUNT,
        forall|c: int|
            0 <= c < CHANNEL_COUNT ==> #[trigger] r@[c] == channel_row_from(
                mod_bytes@,
                channel_row_offset(pattern_index as int, row_index as int, c),
            ),
{
    let mut channel_rows: Vec<ChannelRow> = Vec::new();
    let row_start: usize = PATTERNS_START + pattern_index as usize * PATTERN_LENGTH
        + row_index as usize * 16;
    let mut channel_index: usize = 0;
    while channel_index < CHANNEL_COUNT
        invariant
            channel_index <= CHANNEL_COUNT,
            row_start == channel_row_offset(pattern_index as int, row_index as int, 0),
            row_start + 16 <= mod_bytes@.len(),
            channel_rows@.len() == channel_index,
            forall|c: int|
                0 <= c < channel_index ==> #[trigger] channel_rows@[c] == channel_row_from(
                    mod_bytes@,
                    channel_row_offset(pattern_index as int, row_index as int, c),
                ),
        decreases CHANNEL_COUNT - channel_index,
    {
        let at = row_start + channel_index * 4;
        let b0 = mod_bytes[at];
        let b1 = mod_bytes[at + 1];
        let b2 = mod_bytes[at + 2];
        let b3 = mod_bytes[at + 3];
        let sample = (b0 / 16) * 16 + b2 / 16;
        let period = (b0 % 16) as u16 * 0x100 + b1 as u16;
        let effect = b2 % 16;
        channel_rows.push(ChannelRow { sample, period, effect, effect_value: b3 });
        channel_index = channel_index + 1;
    }
    channel_rows
}

/// The rows of pattern `pattern_index`.
pub fn parse_pattern_rows(mod_bytes: &[u8], pattern_index: u8) -> (r: Vec<PatternRow>)
    requires
        mod_bytes@.len() >= PATTERNS_START + (pattern_index + 1) * PATTERN_LENGTH,
    ensures
        r@.len() == PATTERN_ROWS,
        forall|row: int| 0 <= row < PATTERN_ROWS ==> (#[trigger] r@[row]).channel_rows@.len() == CHANNEL_COUNT,
        forall|row: int, c: int|
            0 <= row < PATTERN_ROWS && 0 <= c < CHANNEL_COUNT ==> #[trigger] r@[row].channel_rows@[c] == channel_row_from(
                mod_bytes@,
                channel_row_offset(pattern_index as int, row, c),
            ),
{
    let mut rows: Vec<PatternRow> = Vec::new();
    let mut row_index: u8 = 0;
    while (row_index as usize) < PATTERN_ROWS
        invariant
            row_index <= PATTERN_ROWS,
            mod_bytes@.len() >= PATTERNS_START + (pattern_index + 1) * PATTERN_LENGTH,
            rows@.len() == row_index,
            forall|row: int| 0 <= row < row_index ==> (#[trigger] rows@[row]).channel_rows@.len() == CHANNEL_COUNT,
            forall|row: int, c: int|
                0 <= row < row_index && 0 <= c < CHANNEL_COUNT ==> #[trigger] rows@[row].channel_rows@[c] == channel_row_from(
                    mod_bytes@,
                    channel_row_offset(pattern_index as int, row, c),
                ),
        decreases PATTERN_ROWS - row_index,
    {
        rows.push(
            PatternRow { channel_rows: parse_mod_channel_rows(mod_bytes, pattern_index, row_index) },
        );
        row_index = row_index + 1;
    }
    rows
}

/// Patterns 0 to `max_pattern`, read from the pattern block.
pub fn parse_patterns(mod_bytes: &[u8], max_pattern: u8) -> (r: Vec<Pattern>)
    requires
        mod_bytes@.len() >= PATTERNS_START + (max_pattern + 1) * PATTERN_LENGTH,
    ensures
        r@.len() == max_pattern + 1,
        forall|p: int| 0 <= p < r@.len() ==> #[trigger] r@[p].rows@.len() == PATTERN_ROWS,
        forall|p: int, row: int|
            0 <= p < r@.len() && 0 <= row < PATTERN_ROWS ==> (#[trigger] r@[p].rows@[row]).channel_rows@.len() == CHANNEL_COUNT,
        forall|p: int, row: int, c: int|
            0 <= p < r@.len() && 0 <= row < PATTERN_ROWS && 0 <= c < CHANNEL_COUNT
                ==> #[trigger] r@[p].rows@[row].channel_rows@[c] == channel_row_from(
                mod_bytes@,
                channel_row_offset(p, row, c),
            ),
{
    let mut patterns: Vec<Pattern> = Vec::new();
    let mut pattern_index: u16 = 0;
    while pattern_index <= max_pattern as u16
        invariant
            pattern_index <= max_pattern + 1,
            mod_bytes@.len() >= PATTERNS_START + (max_pattern + 1) * PATTERN_LENGTH,
            patterns@.len() == pattern_index,
            forall|p: int| 0 <= p < patterns@.len() ==> #[trigger] patterns@[p].rows@.len() == PATTERN_ROWS,
            forall|p: int, row: int|
                0 <= p < patterns@.len() && 0 <= row < PATTERN_ROWS ==> (#[trigger] patterns@[p].rows@[row]).channel_rows@.len() == CHANNEL_COUNT,
            forall|p: int, row: int, c: int|
                0 <= p < patterns@.len() && 0 <= row < PATTERN_ROWS && 0 <= c < CHANNEL_COUNT
                    ==> #[trigger] patterns@[p].rows@[row].channel_rows@[c] == channel_row_from(
                    mod_bytes@,
                    channel_row_offset(p, row, c),
                ),
        decreases max_pattern + 1 - pattern_index,
    {
        assert(PATTERNS_START + (pattern_index + 1) * PATTERN_LENGTH <= PATTERNS_START + (max_pattern + 1) * PATTERN_LENGTH) by (nonlinear_arith)
            requires pattern_index <= max_pattern;
        let rows = parse_pattern_rows(mod_bytes, pattern_index as u8);
        patterns.push(Pattern { rows });
        pattern_index = pattern_index + 1;
    }
    patterns
}


proof fn lemma_data_start_grows(b: Seq<u8>, base: int, i: nat, j: nat)
    requires
        i <= j,
    ensures
        sample_data_start(b, base, i) <= sample_data_start(b, base, j),
    decreases j,
{
    if i < j {
        lemma_data_start_grows(b, base, i, (j - 1) as nat);
    }
}

fn be_word_at(mod_bytes: &[u8], at: usize) -> (r: u32)
    requires
        at + 2 <= mod_bytes@.len(),
    ensures
        r == be_word(mod_bytes@, at as int),
        r < 0x10000,
{
    mod_bytes[at] as u32 * 0x100 + mod_bytes[at + 1] as u32
}

fn sample_name(mod_bytes: &[u8], at: usize) -> (r: String)
    requires
        at + SAMPLE_NAME_LENGTH <= mod_bytes@.len(),
        at <= PATTERNS_START,
    ensures
        r@ == sample_name_of(mod_bytes@, at as int),
{
    match text_from_utf8(slice_to_vec(slice_subrange(mod_bytes, at, at + SAMPLE_NAME_LENGTH))) {
        Some(name) => {
            let text = name.as_str();
            let n = text.unicode_len();
            if n > 0 && text.get_char(n - 1) == '\0' {
                let trimmed = String::from_str(text.substring_char(0, n - 1));
                assert(trimmed@ =~= name@.drop_last());
                trimmed
            } else {
                name
            }
        },
        None => String::new(),
    }
}

/// The 31 catalog entries, with their data read back to back from the end
/// of pattern `max_pattern` on; `None` when that data runs past the bytes.
pub fn parse_samples(mod_bytes: &[u8], max_pattern: u8) -> (r: Option<Vec<Sample>>)
    requires
        mod_bytes@.len() >= PATTERNS_START,
    ensures
        ({
            let base = PATTERNS_START + (max_pattern + 1) * PATTERN_LENGTH;
            &&& r is Some <==> sample_data_start(mod_bytes@, base, SAMPLE_SLOTS as nat) <= mod_bytes@.len()
            &&& r is Some ==> {
                let samples = r->Some_0@;
                &&& samples.len() == SAMPLE_SLOTS
                &&& forall|i: int|
                    0 <= i < SAMPLE_SLOTS ==> sample_decoded(
                        #[trigger] samples[i],
                        mod_bytes@,
                        i,
                        sample_data_start(mod_bytes@, base, i as nat),
                    )
            }
        }),
{
    let ghost b = mod_bytes@;
    let base: usize = PATTERNS_START + (max_pattern as usize + 1) * PATTERN_LENGTH;
    let total = mod_bytes.len();
    if base > total {
        proof {
            lemma_data_start_grows(b, base as int, 0, SAMPLE_SLOTS as nat);
        }
        return None;
    }
    let mut samples: Vec<Sample> = Vec::new();
    let mut position: usize = SAMPLE_HEADER_START;
    let mut data_position: usize = base;
    let mut i: usize = 0;
    while i < SAMPLE_SLOTS
        invariant
            b == mod_bytes@,
            total == b.len(),
            total >= PATTERNS_START,
            base == PATTERNS_START + (max_pattern + 1) * PATTERN_LENGTH,
            i <= SAMPLE_SLOTS,
            position == header_at(i as int),
            data_position == sample_data_start(b, base as int, i as nat),
            data_position <= total,
            samples@.len() == i,
            forall|k: int|
                0 <= k < i ==> sample_decoded(
                    #[trigger] samples@[k],
                    b,
                    k,
                    sample_data_start(b, base as int, k as nat),
                ),
        decreases SAMPLE_SLOTS - i,
    {
        let name = sample_name(mod_bytes, position);
        let length = 2 * be_word_at(mod_bytes, position + 22);
        let finetune = mod_bytes[position + 24] % 16;
        let volume = mod_bytes[position + 25];
        let repeat_start = 2 * be_word_at(mod_bytes, position + 26);
        let repeat_length = 2 * be_word_at(mod_bytes, position + 28);
        if length as usize > total - data_position {
            proof {
                assert(sample_data_start(b, base as int, (i + 1) as nat) == data_position + length);
                lemma_data_start_grows(b, base as int, (i + 1) as nat, SAMPLE_SLOTS as nat);
            }
            return None;
        }
        let data_end = data_position + length as usize;
        let sample_data = slice_to_vec(slice_subrange(mod_bytes, data_position, data_end));
        samples.push(
            Sample { name, length, finetune, volume, repeat_start, repeat_length, sample_data },
        );
        data_position = data_end;
        position = position + SAMPLE_HEADER_LENGTH;
        i = i + 1;
    }
    Some(samples)
}

/// The largest pattern number of an order list.
fn max_position(positions: &Vec<u8>) -> (r: u8)
    ensures
        r == max_of(positions@),
{
    let mut m: u8 = 0;
    let mut i: usize = 0;
    assert(positions@.subrange(0, 0) =~= Seq::<u8>::empty());
    while i < positions.len()
        invariant
            i <= positions@.len(),
            m == max_of(positions@.subrange(0, i as int)),
        decreases positions@.len() - i,
    {
        if positions[i] > m {
            m = positions[i];
        }
        assert(positions@.subrange(0, i + 1).drop_last() =~= positions@.subrange(0, i as int));
        i = i + 1;
    }
    assert(positions@.subrange(0, i as int) =~= positions@);
    m
}

/// Decodes a four-channel module. Checks the signature, the title text,
/// the order list, and that everything declared lies inside the bytes, in
/// that order, and fails with the first check that does not hold. A title
/// that is not valid text fails the decode, while a sample name that is not
/// valid text is read as empty.
pub fn read_mod(mod_bytes: &[u8]) -> (r: Result<Song, DecodeError>)
    ensures
        match r {
            Ok(song) => decode_error(mod_bytes@) is None && song_decoded(song, mod_bytes@),
            Err(e) => decode_error(mod_bytes@) == Some(e),
        },
{
    if !is_mod_file(mod_bytes) {
        return Err(DecodeError::UnrecognizedFormat);
    }
    if read_title(mod_bytes).is_none() {
        return Err(DecodeError::InvalidTitleEncoding);
    }
    let position_count = mod_bytes[POSITION_COUNT_AT] as usize;
    if position_count == 0 {
        return Err(DecodeError::EmptyOrderList);
    }
    if POSITIONS_START + position_count > mod_bytes.len() {
        return Err(DecodeError::TruncatedInput);
    }
    let positions = slice_to_vec(
        slice_subrange(mod_bytes, POSITIONS_START, POSITIONS_START + position_count),
    );
    let max_pattern = max_position(&positions);
    let end = PATTERNS_START + (max_pattern as usize + 1) * PATTERN_LENGTH;
    if end > mod_bytes.len() {
        return Err(DecodeError::TruncatedInput);
    }
    let samples = match parse_samples(mod_bytes, max_pattern) {
        Some(samples) => samples,
        None => {
            return Err(DecodeError::TruncatedInput);
        },
    };
    let patterns = parse_patterns(mod_bytes, max_pattern);
    Ok(Song { patterns, positions, samples, channel_count: CHANNEL_COUNT, mangle_notes: true })
}


/// `max_of` is the largest element of a nonempty sequence.
pub proof fn lemma_max_of_is_max(s: Seq<u8>)
    requires
        s.len() > 0,
    ensures
        forall|i: int| 0 <= i < s.len() ==> #[trigger] s[i] <= max_of(s),
        exists|i: int| 0 <= i < s.len() && s[i] == max_of(s),
    decreases s.len(),
{
    if s.len() == 1 {
        assert(max_of(s.drop_last()) == 0);
        assert(s[0] == max_of(s));
    } else {
        let init = s.drop_last();
        lemma_max_of_is_max(init);
        assert forall|i: int| 0 <= i < s.len() implies #[trigger] s[i] <= max_of(s) by {
            if i < s.len() - 1 {
                assert(s[i] == init[i]);
            }
        }
        if s.last() > max_of(init) {
            assert(s[s.len() - 1] == max_of(s));
        } else {
            let j = choose|j: int| 0 <= j < init.len() && init[j] == max_of(init);
            assert(s[j] == max_of(s));
        }
    }
}

/// A decoded song has as many positions as the header declares, one
/// pattern more than its largest position, and in each pattern 64 rows of
/// one entry per channel.
pub proof fn lemma_decoded_shape(b: Seq<u8>, song: Song)
    requires
        decode_error(b) is None,
        song_decoded(song, b),
    ensures
        song.positions@.len() == b[POSITION_COUNT_AT as int],
        song.patterns@.len() == max_of(song.positions@) + 1,
        forall|i: int|
            0 <= i < song.positions@.len() ==> #[trigger] song.positions@[i] < song.patterns@.len(),
        forall|p: int|
            0 <= p < song.patterns@.len() ==> #[trigger] song.patterns@[p].rows@.len() == PATTERN_ROWS,
        forall|p: int, r: int|
            0 <= p < song.patterns@.len() && 0 <= r < PATTERN_ROWS ==> (
            #[trigger] song.patterns@[p].rows@[r]).channel_rows@.len() == song.channel_count,
        song.channel_count == CHANNEL_COUNT,
{
    lemma_max_of_is_max(song.positions@);
}

/// Each length field of a decoded sample header is a big-endian count of
/// 16-bit words: the sample's length, loop start and loop length in bytes
/// are twice those counts.
pub proof fn lemma_sample_words_doubled(b: Seq<u8>, song: Song)
    requires
        decode_error(b) is None,
        song_decoded(song, b),
    ensures
        forall|k: int|
            0 <= k < SAMPLE_SLOTS ==> {
                &&& (#[trigger] song.samples@[k]).length == 2 * (b[42 + 30 * k] * 0x100 + b[43
                    + 30 * k])
                &&& song.samples@[k].repeat_start == 2 * (b[46 + 30 * k] * 0x100 + b[47 + 30 * k])
                &&& song.samples@[k].repeat_length == 2 * (b[48 + 30 * k] * 0x100 + b[49 + 30
                    * k])
            },
{
}

} // verus!
