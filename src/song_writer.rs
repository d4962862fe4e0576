use crate::song::{ChannelRow, Pattern, PatternRow, Sample, Song, PATTERN_ROWS, SAMPLE_SLOTS};
use vstd::prelude::*;

verus! {

/// Size of the reserved block at the start of the output.
pub const HEADER_SIZE: usize = 32;

/// Size of one sample descriptor block.
pub const SAMPLE_BLOCK_SIZE: usize = 32;

/// Size of the order list; unused slots hold `ORDER_END`.
pub const ORDER_LIST_SIZE: usize = 256;

/// Marks the end of the song in the order list.
pub const ORDER_END: u8 = 0xff;

/// Bytes in a packed loop preview: 32 four-bit values.
pub const PREVIEW_SIZE: usize = 16;

/// Sample numbers from this one up are kept for special channels: they get
/// no octave compensation, and their slots no loop length check.
pub const SPECIAL_SAMPLES_START: u8 = 23;

/// The device note of a tracker period: the 36 standard periods of three
/// octaves map to 0x01..=0x24, every other period to 0 (no note).
pub open spec fn period_note(period: u16) -> u8 {
    match period {
        856 => 0x01u8,
        808 => 0x02u8,
        762 => 0x03u8,
        720 => 0x04u8,
        678 => 0x05u8,
        640 => 0x06u8,
        604 => 0x07u8,
        570 => 0x08u8,
        538 => 0x09u8,
        508 => 0x0au8,
        480 => 0x0bu8,
        453 => 0x0cu8,
        428 => 0x0du8,
        404 => 0x0eu8,
        381 => 0x0fu8,
        360 => 0x10u8,
        339 => 0x11u8,
        320 => 0x12u8,
        302 => 0x13u8,
        285 => 0x14u8,
        269 => 0x15u8,
        254 => 0x16u8,
        240 => 0x17u8,
        226 => 0x18u8,
        214 => 0x19u8,
        202 => 0x1au8,
        190 => 0x1bu8,
        180 => 0x1cu8,
        170 => 0x1du8,
        160 => 0x1eu8,
        151 => 0x1fu8,
        143 => 0x20u8,
        135 => 0x21u8,
        127 => 0x22u8,
        120 => 0x23u8,
        113 => 0x24u8,
        _ => 0u8,
    }
}

/// Looks a period up in the note table.
pub fn note_for_period(period: u16) -> (r: u8)
    ensures
        r == period_note(period),
        r <= 0x24,
{
    match period {
        856 => 0x01,
        808 => 0x02,
        762 => 0x03,
        720 => 0x04,
        678 => 0x05,
        640 => 0x06,
        604 => 0x07,
        570 => 0x08,
        538 => 0x09,
        508 => 0x0a,
        480 => 0x0b,
        453 => 0x0c,
        428 => 0x0d,
        404 => 0x0e,
        381 => 0x0f,
        360 => 0x10,
        339 => 0x11,
        320 => 0x12,
        302 => 0x13,
        285 => 0x14,
        269 => 0x15,
        254 => 0x16,
        240 => 0x17,
        226 => 0x18,
        214 => 0x19,
        202 => 0x1a,
        190 => 0x1b,
        180 => 0x1c,
        170 => 0x1d,
        160 => 0x1e,
        151 => 0x1f,
        143 => 0x20,
        135 => 0x21,
        127 => 0x22,
        120 => 0x23,
        113 => 0x24,
        _ => 0,
    }
}

/// Position of a loop length in the supported list 128, 64, 32, 16; `None`
/// for any other length. A loop of rank k is previewed with a stride of
/// 2^(3-k) and its notes are raised by k octaves.
pub open spec fn loop_length_rank(repeat_length: u32) -> Option<u8> {
    if repeat_length == 128 {
        Some(0u8)
    } else if repeat_length == 64 {
        Some(1u8)
    } else if repeat_length == 32 {
        Some(2u8)
    } else if repeat_length == 16 {
        Some(3u8)
    } else {
        None
    }
}

fn repeat_length_rank(repeat_length: u32) -> (r: Option<u8>)
    ensures
        r == loop_length_rank(repeat_length),
{
    if repeat_length == 128 {
        Some(0)
    } else if repeat_length == 64 {
        Some(1)
    } else if repeat_length == 32 {
        Some(2)
    } else if repeat_length == 16 {
        Some(3)
    } else {
        None
    }
}

/// The top four bits of a signed 8-bit sample value made unsigned.
pub open spec fn unsigned_nibble(x: u8) -> int {
    ((x as int + 0x80) % 0x100) / 0x10
}

/// One preview byte: the high nibble from `hi`, the low nibble from `lo`.
pub open spec fn pack_pair(hi: u8, lo: u8) -> u8 {
    (unsigned_nibble(hi) * 0x10 + unsigned_nibble(lo)) as u8
}

/// A sample gets a real preview when it has data, a supported loop length,
/// and a loop that lies inside its data.
pub open spec fn has_preview(s: Sample) -> bool {
    &&& s.length > 0
    &&& loop_length_rank(s.repeat_length) is Some
    &&& s.repeat_start + s.repeat_length <= s.sample_data@.len()
}

/// The 16-byte preview of a sample's loop: the loop is read with a stride
/// of `repeat_length / 16`; byte k packs the value at `k * stride` (high
/// nibble) with the value at `k * stride + stride / 2` (low nibble), both
/// counted from the loop start. Samples without a preview give 16 zero bytes.
pub open spec fn preview_of(s: Sample) -> Seq<u8> {
    if has_preview(s) {
        let stride = (s.repeat_length / 16) as int;
        let d = s.sample_data@;
        let start = s.repeat_start as int;
        Seq::new(
            PREVIEW_SIZE as nat,
            |k: int| pack_pair(d[start + k * stride], d[start + k * stride + stride / 2]),
        )
    } else {
        Seq::new(PREVIEW_SIZE as nat, |k: int| 0u8)
    }
}

fn unsigned_nibble_of(x: u8) -> (r: u8)
    ensures
        r as int == unsigned_nibble(x),
        r < 0x10,
{
    (((x as u16 + 0x80) % 0x100) / 0x10) as u8
}

/// Packs the loop of a sample into its 16-byte preview.
pub fn pack_preview(sample: &Sample) -> (r: Vec<u8>)
    ensures
        r@ == preview_of(*sample),
{
    let mut out: Vec<u8> = Vec::new();
    let rank = repeat_length_rank(sample.repeat_length);
    let fits = sample.repeat_start as u64 + sample.repeat_length as u64
        <= sample.sample_data.len() as u64;
    if sample.length > 0 && rank.is_some() && fits {
        let stride: usize = (sample.repeat_length / 16) as usize;
        let start: usize = sample.repeat_start as usize;
        let ghost d = sample.sample_data@;
        let data_len = sample.sample_data.len();
        assert(stride == 1 || stride == 2 || stride == 4 || stride == 8);
        let mut k: usize = 0;
        let mut base: usize = start;
        while k < PREVIEW_SIZE
            invariant
                k <= PREVIEW_SIZE,
                stride == 1 || stride == 2 || stride == 4 || stride == 8,
                stride as int * 16 == sample.repeat_length,
                start + sample.repeat_length <= d.len(),
                d == sample.sample_data@,
                data_len == d.len(),
                start == sample.repeat_start,
                base == start + k * stride,
                has_preview(*sample),
                out@.len() == k,
                forall|j: int|
                    0 <= j < k ==> #[trigger] out@[j] == pack_pair(
                        d[start + j * stride],
                        d[start + j * stride + stride / 2],
                    ),
            decreases PREVIEW_SIZE - k,
        {
            assert(k * stride + stride <= 16 * stride) by (nonlinear_arith)
                requires
                    k < 16,
            ;
            assert(base + stride <= data_len);
            let hi = unsigned_nibble_of(sample.sample_data[base]);
            let lo = unsigned_nibble_of(sample.sample_data[base + stride / 2]);
            out.push(hi * 0x10 + lo);
            assert((k + 1) * stride == k * stride + stride) by (nonlinear_arith);
            k = k + 1;
            base = base + stride;
        }
        assert(out@ =~= preview_of(*sample));
    } else {
        let mut k: usize = 0;
        while k < PREVIEW_SIZE
            invariant
                k <= PREVIEW_SIZE,
                out@ == Seq::new(k as nat, |j: int| 0u8),
            decreases PREVIEW_SIZE - k,
        {
            out.push(0);
            k = k + 1;
            assert(out@ =~= Seq::new(k as nat, |j: int| 0u8));
        }
    }
    out
}


/// A sample descriptor block: the volume, 15 reserved zero bytes, then the
/// loop preview.
pub open spec fn sample_block(s: Sample) -> Seq<u8> {
    seq![s.volume] + Seq::new(15, |i: int| 0u8) + preview_of(s)
}

/// The descriptor blocks of a catalog, in slot order.
pub open spec fn sample_blocks(samples: Seq<Sample>) -> Seq<u8>
    decreases samples.len(),
{
    if samples.len() == 0 {
        Seq::empty()
    } else {
        sample_blocks(samples.drop_last()) + sample_block(samples.last())
    }
}

/// The order list as stored: the positions, then `ORDER_END` up to 256 bytes.
pub open spec fn order_list(positions: Seq<u8>) -> Seq<u8> {
    Seq::new(
        ORDER_LIST_SIZE as nat,
        |i: int|
            if i < positions.len() {
                positions[i]
            } else {
                ORDER_END
            },
    )
}

/// A slot whose loop length is flagged: a regular slot with data whose loop
/// length is not supported.
pub open spec fn loop_warning(index: int, s: Sample) -> bool {
    &&& index < SPECIAL_SAMPLES_START
    &&& s.length > 0
    &&& loop_length_rank(s.repeat_length) is None
}

/// The flagged slots of a catalog, ascending.
pub open spec fn warned_slots(samples: Seq<Sample>) -> Seq<usize>
    decreases samples.len(),
{
    if samples.len() == 0 {
        Seq::empty()
    } else {
        let i = samples.len() - 1;
        warned_slots(samples.drop_last()) + if loop_warning(i, samples.last()) {
            seq![i as usize]
        } else {
            Seq::empty()
        }
    }
}

/// The channel entries of one row, each with its channel index.
pub open spec fn row_entries(channel_rows: Seq<ChannelRow>) -> Seq<(int, ChannelRow)> {
    Seq::new(channel_rows.len(), |c: int| (c, channel_rows[c]))
}

/// The channel entries of a sequence of rows, in row order.
pub open spec fn rows_entries(rows: Seq<PatternRow>) -> Seq<(int, ChannelRow)>
    decreases rows.len(),
{
    if rows.len() == 0 {
        Seq::empty()
    } else {
        rows_entries(rows.drop_last()) + row_entries(rows.last().channel_rows@)
    }
}

/// Every channel entry of a sequence of patterns, in file order: pattern,
/// then row, then channel.
pub open spec fn song_entries(patterns: Seq<Pattern>) -> Seq<(int, ChannelRow)>
    decreases patterns.len(),
{
    if patterns.len() == 0 {
        Seq::empty()
    } else {
        song_entries(patterns.drop_last()) + rows_entries(patterns.last().rows@)
    }
}

/// The sample selected on a channel after the given entries: the last
/// nonzero sample number seen on that channel, 0 if there is none.
pub open spec fn selected_sample(entries: Seq<(int, ChannelRow)>, channel: int) -> u8
    decreases entries.len(),
{
    if entries.len() == 0 {
        0
    } else {
        let e = entries.last();
        if e.0 == channel && e.1.sample > 0 {
            e.1.sample
        } else {
            selected_sample(entries.drop_last(), channel)
        }
    }
}

/// Semitones added to a note played with the given sample number: 12 per
/// rank of the sample's loop length, for regular samples with a supported
/// loop length; 0 otherwise.
pub open spec fn octave_offset(samples: Seq<Sample>, number: u8) -> u8 {
    if 1 <= number < SPECIAL_SAMPLES_START && number <= samples.len() {
        match loop_length_rank(samples[number - 1].repeat_length) {
            Some(rank) => (12 * rank) as u8,
            None => 0u8,
        }
    } else {
        0u8
    }
}

/// The note byte written for a period played with the given sample number.
pub open spec fn encoded_note(period: u16, number: u8, samples: Seq<Sample>, mangle: bool) -> u8 {
    let note = period_note(period);
    if mangle && note > 0 {
        (note + octave_offset(samples, number)) as u8
    } else {
        note
    }
}

/// The four bytes of the last entry: note, sample number, effect, parameter.
pub open spec fn last_entry_bytes(
    entries: Seq<(int, ChannelRow)>,
    samples: Seq<Sample>,
    mangle: bool,
) -> Seq<u8> {
    let e = entries.last();
    seq![
        encoded_note(e.1.period, selected_sample(entries, e.0), samples, mangle),
        e.1.sample,
        e.1.effect,
        e.1.effect_value,
    ]
}

/// The pattern data of a sequence of channel entries.
pub open spec fn pattern_bytes(
    entries: Seq<(int, ChannelRow)>,
    samples: Seq<Sample>,
    mangle: bool,
) -> Seq<u8>
    decreases entries.len(),
{
    if entries.len() == 0 {
        Seq::empty()
    } else {
        pattern_bytes(entries.drop_last(), samples, mangle) + last_entry_bytes(
            entries,
            samples,
            mangle,
        )
    }
}

/// The device image of a song: header, sample blocks, order list, pattern data.
pub open spec fn song_bytes(song: Song) -> Seq<u8> {
    Seq::new(HEADER_SIZE as nat, |i: int| 0u8) + sample_blocks(song.samples@) + order_list(
        song.positions@,
    ) + pattern_bytes(song_entries(song.patterns@), song.samples@, song.mangle_notes)
}

/// The catalog slots whose loop length is flagged.
pub fn sample_warnings(song: &Song) -> (r: Vec<usize>)
    ensures
        r@ == warned_slots(song.samples@),
{
    let mut r: Vec<usize> = Vec::new();
    let mut i: usize = 0;
    while i < song.samples.len()
        invariant
            i <= song.samples@.len(),
            r@ == warned_slots(song.samples@.subrange(0, i as int)),
        decreases song.samples@.len() - i,
    {
        let sample = &song.samples[i];
        if i < SPECIAL_SAMPLES_START as usize && sample.length > 0 && repeat_length_rank(
            sample.repeat_length,
        ).is_none() {
            r.push(i);
        }
        assert(song.samples@.subrange(0, i + 1).drop_last() =~= song.samples@.subrange(0, i as int));
        i = i + 1;
    }
    assert(song.samples@.subrange(0, i as int) =~= song.samples@);
    r
}

fn push_sample_block(output: &mut Vec<u8>, sample: &Sample)
    ensures
        final(output)@ == old(output)@ + sample_block(*sample),
{
    output.push(sample.volume);
    let mut k: usize = 0;
    while k < 15
        invariant
            k <= 15,
            output@ == old(output)@ + seq![sample.volume] + Seq::new(k as nat, |i: int| 0u8),
        decreases 15 - k,
    {
        output.push(0);
        k = k + 1;
        assert(output@ =~= old(output)@ + seq![sample.volume] + Seq::new(k as nat, |i: int| 0u8));
    }
    let mut preview = pack_preview(sample);
    output.append(&mut preview);
    assert(output@ =~= old(output)@ + sample_block(*sample));
}

fn push_order_list(output: &mut Vec<u8>, positions: &Vec<u8>)
    ensures
        final(output)@ == old(output)@ + order_list(positions@),
{
    let mut i: usize = 0;
    while i < ORDER_LIST_SIZE
        invariant
            i <= ORDER_LIST_SIZE,
            output@ == old(output)@ + order_list(positions@).subrange(0, i as int),
        decreases ORDER_LIST_SIZE - i,
    {
        if i < positions.len() {
            output.push(positions[i]);
        } else {
            output.push(ORDER_END);
        }
        i = i + 1;
        assert(output@ =~= old(output)@ + order_list(positions@).subrange(0, i as int));
    }
    assert(order_list(positions@).subrange(0, i as int) =~= order_list(positions@));
}


/// The note byte for a period played with sample number `number`: the table
/// note, raised by the sample's octave offset when `mangle` is set and the
/// period has a note.
pub fn device_note(period: u16, number: u8, samples: &Vec<Sample>, mangle: bool) -> (r: u8)
    ensures
        r == encoded_note(period, number, samples@, mangle),
{
    let note = note_for_period(period);
    if mangle && note > 0 {
        let mut offset: u8 = 0;
        if 1 <= number && number < SPECIAL_SAMPLES_START && (number as usize) <= samples.len() {
            match repeat_length_rank(samples[number as usize - 1].repeat_length) {
                Some(rank) => {
                    offset = 12 * rank;
                },
                None => {},
            }
        }
        note + offset
    } else {
        note
    }
}

fn push_pattern_data(output: &mut Vec<u8>, song: &Song)
    requires
        song.well_formed(),
    ensures
        final(output)@ == old(output)@ + pattern_bytes(
            song_entries(song.patterns@),
            song.samples@,
            song.mangle_notes,
        ),
{
    let channel_count = song.channel_count;
    let mut selected: Vec<u8> = Vec::new();
    let mut c: usize = 0;
    while c < channel_count
        invariant
            c <= channel_count,
            selected@ == Seq::new(c as nat, |i: int| 0u8),
        decreases channel_count - c,
    {
        selected.push(0);
        c = c + 1;
        assert(selected@ =~= Seq::new(c as nat, |i: int| 0u8));
    }
    let ghost samples = song.samples@;
    let ghost mangle = song.mangle_notes;
    let ghost patterns = song.patterns@;
    let ghost mut done: Seq<(int, ChannelRow)> = Seq::empty();
    assert(patterns.subrange(0, 0) =~= Seq::<Pattern>::empty());
    let mut p: usize = 0;
    while p < song.patterns.len()
        invariant
            song.well_formed(),
            channel_count == song.channel_count,
            samples == song.samples@,
            mangle == song.mangle_notes,
            patterns == song.patterns@,
            p <= patterns.len(),
            done == song_entries(patterns.subrange(0, p as int)),
            output@ == old(output)@ + pattern_bytes(done, samples, mangle),
            selected@.len() == channel_count,
            forall|ch: int| 0 <= ch < channel_count ==> #[trigger] selected@[ch] == selected_sample(done, ch),
        decreases patterns.len() - p,
    {
        let pattern = &song.patterns[p];
        let ghost rows = pattern.rows@;
        let ghost before_pattern = done;
        assert(rows.subrange(0, 0) =~= Seq::<PatternRow>::empty());
        assert(done =~= before_pattern + rows_entries(rows.subrange(0, 0)));
        let mut r: usize = 0;
        while r < pattern.rows.len()
            invariant
                song.well_formed(),
                channel_count == song.channel_count,
                samples == song.samples@,
                mangle == song.mangle_notes,
                patterns == song.patterns@,
                p < patterns.len(),
                *pattern == patterns[p as int],
                rows == pattern.rows@,
                rows.len() == PATTERN_ROWS,
                r <= rows.len(),
                before_pattern == song_entries(patterns.subrange(0, p as int)),
                done == before_pattern + rows_entries(rows.subrange(0, r as int)),
                output@ == old(output)@ + pattern_bytes(done, samples, mangle),
                selected@.len() == channel_count,
                forall|ch: int| 0 <= ch < channel_count ==> #[trigger] selected@[ch] == selected_sample(done, ch),
            decreases rows.len() - r,
        {
            let row = &pattern.rows[r];
            let ghost cells = row.channel_rows@;
            let ghost before_row = done;
            assert(cells.len() == channel_count);
            assert(cells.subrange(0, 0) =~= Seq::<ChannelRow>::empty());
            assert(done =~= before_row + row_entries(cells.subrange(0, 0)));
            let mut c: usize = 0;
            while c < row.channel_rows.len()
                invariant
                    samples == song.samples@,
                    mangle == song.mangle_notes,
                    cells == row.channel_rows@,
                    cells.len() == channel_count,
                    c <= cells.len(),
                    done == before_row + row_entries(cells.subrange(0, c as int)),
                    output@ == old(output)@ + pattern_bytes(done, samples, mangle),
                    selected@.len() == channel_count,
                    forall|ch: int| 0 <= ch < channel_count ==> #[trigger] selected@[ch] == selected_sample(done, ch),
                decreases cells.len() - c,
            {
                let cell = row.channel_rows[c];
                if cell.sample > 0 {
                    selected[c] = cell.sample;
                }
                let note = device_note(cell.period, selected[c], &song.samples, song.mangle_notes);
                output.push(note);
                output.push(cell.sample);
                output.push(cell.effect);
                output.push(cell.effect_value);
                let ghost prev = done;
                proof {
                    done = done.push((c as int, cell));
                    assert(done.drop_last() =~= prev);
                    assert(row_entries(cells.subrange(0, c + 1)) =~= row_entries(
                        cells.subrange(0, c as int),
                    ).push((c as int, cell)));
                    assert(done =~= before_row + row_entries(cells.subrange(0, c + 1)));
                    assert forall|ch: int| 0 <= ch < channel_count implies #[trigger] selected@[ch]
                        == selected_sample(done, ch) by {}
                    assert(output@ =~= old(output)@ + pattern_bytes(done, samples, mangle));
                }
                c = c + 1;
            }
            proof {
                assert(cells.subrange(0, c as int) =~= cells);
                assert(rows.subrange(0, r + 1).drop_last() =~= rows.subrange(0, r as int));
                assert(done =~= before_pattern + rows_entries(rows.subrange(0, r + 1)));
            }
            r = r + 1;
        }
        proof {
            assert(rows.subrange(0, r as int) =~= rows);
            assert(patterns.subrange(0, p + 1).drop_last() =~= patterns.subrange(0, p as int));
            assert(done =~= song_entries(patterns.subrange(0, p + 1)));
        }
        p = p + 1;
    }
    assert(patterns.subrange(0, p as int) =~= patterns);
}

/// Encodes a song into the device's byte layout.
pub fn encode_song(song: &Song) -> (r: Vec<u8>)
    requires
        song.well_formed(),
    ensures
        r@ == song_bytes(*song),
{
    let mut output: Vec<u8> = Vec::new();
    let mut i: usize = 0;
    while i < HEADER_SIZE
        invariant
            i <= HEADER_SIZE,
            output@ == Seq::new(i as nat, |k: int| 0u8),
        decreases HEADER_SIZE - i,
    {
        output.push(0);
        i = i + 1;
        assert(output@ =~= Seq::new(i as nat, |k: int| 0u8));
    }
    let ghost header = output@;
    let mut s: usize = 0;
    while s < song.samples.len()
        invariant
            header == Seq::new(HEADER_SIZE as nat, |k: int| 0u8),
            s <= song.samples@.len(),
            output@ == header + sample_blocks(song.samples@.subrange(0, s as int)),
        decreases song.samples@.len() - s,
    {
        push_sample_block(&mut output, &song.samples[s]);
        assert(song.samples@.subrange(0, s + 1).drop_last() =~= song.samples@.subrange(0, s as int));
        s = s + 1;
        assert(output@ =~= header + sample_blocks(song.samples@.subrange(0, s as int)));
    }
    assert(song.samples@.subrange(0, s as int) =~= song.samples@);
    push_order_list(&mut output, &song.positions);
    push_pattern_data(&mut output, song);
    assert(output@ =~= song_bytes(*song));
    output
}


proof fn lemma_sample_blocks_len(samples: Seq<Sample>)
    ensures
        sample_blocks(samples).len() == SAMPLE_BLOCK_SIZE * samples.len(),
    decreases samples.len(),
{
    if samples.len() > 0 {
        lemma_sample_blocks_len(samples.drop_last());
    }
}

proof fn lemma_pattern_bytes_len(entries: Seq<(int, ChannelRow)>, samples: Seq<Sample>, mangle: bool)
    ensures
        pattern_bytes(entries, samples, mangle).len() == 4 * entries.len(),
    decreases entries.len(),
{
    if entries.len() > 0 {
        lemma_pattern_bytes_len(entries.drop_last(), samples, mangle);
    }
}

proof fn lemma_rows_entries_len(rows: Seq<PatternRow>, channel_count: int)
    requires
        forall|r: int| 0 <= r < rows.len() ==> (#[trigger] rows[r]).channel_rows@.len() == channel_count,
    ensures
        rows_entries(rows).len() == rows.len() * channel_count,
    decreases rows.len(),
{
    if rows.len() > 0 {
        lemma_rows_entries_len(rows.drop_last(), channel_count);
        assert(rows.last() == rows[rows.len() - 1]);
        assert((rows.len() - 1) * channel_count + channel_count == rows.len() * channel_count)
            by (nonlinear_arith);
    }
}

proof fn lemma_song_entries_len(patterns: Seq<Pattern>, channel_count: int)
    requires
        forall|p: int| 0 <= p < patterns.len() ==> #[trigger] patterns[p].rows@.len() == PATTERN_ROWS,
        forall|p: int, r: int|
            0 <= p < patterns.len() && 0 <= r < PATTERN_ROWS ==> (
            #[trigger] patterns[p].rows@[r]).channel_rows@.len() == channel_count,
    ensures
        song_entries(patterns).len() == patterns.len() * PATTERN_ROWS * channel_count,
    decreases patterns.len(),
{
    if patterns.len() > 0 {
        let last = patterns.len() - 1;
        lemma_song_entries_len(patterns.drop_last(), channel_count);
        assert(patterns.last() == patterns[last]);
        assert forall|r: int| 0 <= r < patterns[last].rows@.len() implies (
        #[trigger] patterns[last].rows@[r]).channel_rows@.len() == channel_count by {}
        lemma_rows_entries_len(patterns[last].rows@, channel_count);
        let n = patterns.len() as int;
        assert((n - 1) * PATTERN_ROWS * channel_count + PATTERN_ROWS * channel_count == n
            * PATTERN_ROWS * channel_count) by (nonlinear_arith);
        assert(song_entries(patterns) == song_entries(patterns.drop_last()) + rows_entries(
            patterns[last].rows@,
        ));
    } else {
        assert(patterns.len() * PATTERN_ROWS * channel_count == 0) by (nonlinear_arith)
            requires
                patterns.len() == 0,
        ;
    }
}

/// The encoded size of a well-formed song: the header, 31 sample blocks,
/// the order list, and four bytes for each channel of each row of each
/// pattern.
pub proof fn lemma_encoded_length(song: Song)
    requires
        song.well_formed(),
    ensures
        song_bytes(song).len() == HEADER_SIZE + SAMPLE_SLOTS * SAMPLE_BLOCK_SIZE + ORDER_LIST_SIZE
            + song.patterns@.len() * PATTERN_ROWS * song.channel_count * 4,
{
    lemma_sample_blocks_len(song.samples@);
    let entries = song_entries(song.patterns@);
    lemma_pattern_bytes_len(entries, song.samples@, song.mangle_notes);
    lemma_song_entries_len(song.patterns@, song.channel_count as int);
}

/// The order list starts right after the sample blocks: slot i holds
/// position i while there is one, and the end marker after that.
pub proof fn lemma_order_list_round_trip(song: Song)
    requires
        song.well_formed(),
    ensures
        forall|i: int|
            0 <= i < ORDER_LIST_SIZE ==> #[trigger] song_bytes(song)[HEADER_SIZE + SAMPLE_SLOTS
                * SAMPLE_BLOCK_SIZE + i] == if i < song.positions@.len() {
                song.positions@[i]
            } else {
                ORDER_END
            },
{
    lemma_sample_blocks_len(song.samples@);
}

/// A loop of 16 bytes is packed one to one: both nibbles of preview byte k
/// come from loop byte k. A loop of 128 bytes is read every 8th byte:
/// preview byte k packs loop bytes 8k and 8k + 4.
pub proof fn lemma_preview_strides(s: Sample)
    requires
        has_preview(s),
    ensures
        preview_of(s).len() == PREVIEW_SIZE,
        s.repeat_length == 16 ==> forall|k: int|
            0 <= k < PREVIEW_SIZE ==> #[trigger] preview_of(s)[k] == pack_pair(
                s.sample_data@[s.repeat_start + k],
                s.sample_data@[s.repeat_start + k],
            ),
        s.repeat_length == 128 ==> forall|k: int|
            0 <= k < PREVIEW_SIZE ==> #[trigger] preview_of(s)[k] == pack_pair(
                s.sample_data@[s.repeat_start + 8 * k],
                s.sample_data@[s.repeat_start + 8 * k + 4],
            ),
{
    let d = s.sample_data@;
    let start = s.repeat_start as int;
    if s.repeat_length == 16 {
        assert forall|k: int| 0 <= k < PREVIEW_SIZE implies #[trigger] preview_of(s)[k] == pack_pair(
            d[start + k],
            d[start + k],
        ) by {
            assert(k * 1 == k);
        }
    } else if s.repeat_length == 128 {
        assert forall|k: int| 0 <= k < PREVIEW_SIZE implies #[trigger] preview_of(s)[k] == pack_pair(
            d[start + 8 * k],
            d[start + 8 * k + 4],
        ) by {
            assert(k * 8 == 8 * k);
        }
    }
}

/// With compensation on, a note played with a regular sample (number below
/// `SPECIAL_SAMPLES_START`) is raised one octave for a 64-byte loop and
/// three octaves for a 16-byte loop; a special sample leaves it as the
/// table gives it.
pub proof fn lemma_octave_compensation(period: u16, number: u8, samples: Seq<Sample>)
    requires
        period_note(period) > 0,
        1 <= number <= samples.len(),
    ensures
        number < SPECIAL_SAMPLES_START && samples[number - 1].repeat_length == 64 ==> encoded_note(
            period,
            number,
            samples,
            true,
        ) == period_note(period) + 12,
        number < SPECIAL_SAMPLES_START && samples[number - 1].repeat_length == 16 ==> encoded_note(
            period,
            number,
            samples,
            true,
        ) == period_note(period) + 36,
        number >= SPECIAL_SAMPLES_START ==> encoded_note(period, number, samples, true)
            == period_note(period),
{
    assert(period_note(period) <= 0x24);
}

proof fn lemma_rows_entries_index(rows: Seq<PatternRow>, channel_count: int, r: int, c: int)
    requires
        forall|i: int| 0 <= i < rows.len() ==> (#[trigger] rows[i]).channel_rows@.len() == channel_count,
        0 <= r < rows.len(),
        0 <= c < channel_count,
    ensures
        rows_entries(rows)[r * channel_count + c] == (c, rows[r].channel_rows@[c]),
    decreases rows.len(),
{
    let init = rows.drop_last();
    let last = rows.len() - 1;
    lemma_rows_entries_len(init, channel_count);
    assert(rows.last() == rows[last]);
    if r == last {
        assert(r * channel_count + c - init.len() * channel_count == c) by (nonlinear_arith)
            requires
                r == init.len(),
        ;
        assert(init.len() * channel_count >= 0) by (nonlinear_arith)
            requires
                0 <= c < channel_count,
        ;
    } else {
        assert(init[r] == rows[r]);
        lemma_rows_entries_index(init, channel_count, r, c);
        assert(r * channel_count + c < init.len() * channel_count) by (nonlinear_arith)
            requires
                0 <= r,
                r + 1 <= init.len(),
                0 <= c < channel_count,
        ;
        assert(0 <= r * channel_count) by (nonlinear_arith)
            requires
                0 <= r,
                0 <= c < channel_count,
        ;
    }
}

proof fn lemma_song_entries_index(patterns: Seq<Pattern>, channel_count: int, p: int, r: int, c: int)
    requires
        forall|q: int| 0 <= q < patterns.len() ==> #[trigger] patterns[q].rows@.len() == PATTERN_ROWS,
        forall|q: int, i: int|
            0 <= q < patterns.len() && 0 <= i < PATTERN_ROWS ==> (
            #[trigger] patterns[q].rows@[i]).channel_rows@.len() == channel_count,
        0 <= p < patterns.len(),
        0 <= r < PATTERN_ROWS,
        0 <= c < channel_count,
    ensures
        song_entries(patterns)[(p * PATTERN_ROWS + r) * channel_count + c] == (
        c,
        patterns[p].rows@[r].channel_rows@[c],
        ),
    decreases patterns.len(),
{
    let init = patterns.drop_last();
    let last = patterns.len() - 1;
    lemma_song_entries_len(init, channel_count);
    assert(patterns.last() == patterns[last]);
    if p == last {
        let rows = patterns[p].rows@;
        assert forall|i: int| 0 <= i < rows.len() implies (#[trigger] rows[i]).channel_rows@.len()
            == channel_count by {}
        lemma_rows_entries_index(rows, channel_count, r, c);
        lemma_rows_entries_len(rows, channel_count);
        assert(r * channel_count + c < PATTERN_ROWS * channel_count) by (nonlinear_arith)
            requires
                0 <= r < PATTERN_ROWS,
                0 <= c < channel_count,
        ;
        assert(0 <= r * channel_count) by (nonlinear_arith)
            requires
                0 <= r,
                0 <= c < channel_count,
        ;
        assert(init.len() * PATTERN_ROWS * channel_count >= 0) by (nonlinear_arith)
            requires
                0 <= c < channel_count,
        ;
        assert((p * PATTERN_ROWS + r) * channel_count + c - init.len() * PATTERN_ROWS
            * channel_count == r * channel_count + c) by (nonlinear_arith)
            requires
                p == init.len(),
        ;
    } else {
        lemma_song_entries_index(init, channel_count, p, r, c);
        assert(0 <= (p * PATTERN_ROWS + r) * channel_count + c) by (nonlinear_arith)
            requires
                0 <= p,
                0 <= r,
                0 <= c < channel_count,
        ;
        assert((p * PATTERN_ROWS + r) * channel_count + c < init.len() * PATTERN_ROWS
            * channel_count) by (nonlinear_arith)
            requires
                p + 1 <= init.len(),
                0 <= r < PATTERN_ROWS,
                0 <= c < channel_count,
        ;
    }
}

proof fn lemma_pattern_bytes_index(
    entries: Seq<(int, ChannelRow)>,
    samples: Seq<Sample>,
    mangle: bool,
    k: int,
    j: int,
)
    requires
        0 <= k < entries.len(),
        0 <= j < 4,
    ensures
        pattern_bytes(entries, samples, mangle)[4 * k + j] == last_entry_bytes(
            entries.subrange(0, k + 1),
            samples,
            mangle,
        )[j],
    decreases entries.len(),
{
    let init = entries.drop_last();
    lemma_pattern_bytes_len(init, samples, mangle);
    if k == entries.len() - 1 {
        assert(entries.subrange(0, k + 1) =~= entries);
    } else {
        lemma_pattern_bytes_index(init, samples, mangle, k, j);
        assert(init.subrange(0, k + 1) =~= entries.subrange(0, k + 1));
    }
}

/// Each channel entry of each row is encoded as four bytes at its place in
/// file order: the note that its period and the channel's selected sample
/// give (the table note when compensation is off), then its sample number,
/// effect and effect parameter.
pub proof fn lemma_pattern_cells(song: Song, p: int, r: int, c: int)
    requires
        song.well_formed(),
        0 <= p < song.patterns@.len(),
        0 <= r < PATTERN_ROWS,
        0 <= c < song.channel_count,
    ensures
        ({
            let k = (p * PATTERN_ROWS + r) * song.channel_count + c;
            let o = HEADER_SIZE + SAMPLE_SLOTS * SAMPLE_BLOCK_SIZE + ORDER_LIST_SIZE + 4 * k;
            let cell = song.patterns@[p].rows@[r].channel_rows@[c];
            let entries = song_entries(song.patterns@);
            &&& song_bytes(song)[o] == encoded_note(
                cell.period,
                selected_sample(entries.subrange(0, k + 1), c),
                song.samples@,
                song.mangle_notes,
            )
            &&& !song.mangle_notes ==> song_bytes(song)[o] == period_note(cell.period)
            &&& song_bytes(song)[o + 1] == cell.sample
            &&& song_bytes(song)[o + 2] == cell.effect
            &&& song_bytes(song)[o + 3] == cell.effect_value
        }),
{
    let cc = song.channel_count as int;
    let k = (p * PATTERN_ROWS + r) * cc + c;
    let entries = song_entries(song.patterns@);
    lemma_song_entries_len(song.patterns@, cc);
    lemma_song_entries_index(song.patterns@, cc, p, r, c);
    assert(k < entries.len()) by (nonlinear_arith)
        requires
            k == (p * PATTERN_ROWS + r) * cc + c,
            entries.len() == song.patterns@.len() * PATTERN_ROWS * cc,
            p + 1 <= song.patterns@.len(),
            0 <= r < PATTERN_ROWS,
            0 <= c < cc,
    ;
    assert(0 <= k) by (nonlinear_arith)
        requires
            k == (p * PATTERN_ROWS + r) * cc + c,
            0 <= p,
            0 <= r,
            0 <= c,
            0 <= cc,
    ;
    lemma_sample_blocks_len(song.samples@);
    let pb = pattern_bytes(entries, song.samples@, song.mangle_notes);
    lemma_pattern_bytes_index(entries, song.samples@, song.mangle_notes, k, 0);
    lemma_pattern_bytes_index(entries, song.samples@, song.mangle_notes, k, 1);
    lemma_pattern_bytes_index(entries, song.samples@, song.mangle_notes, k, 2);
    lemma_pattern_bytes_index(entries, song.samples@, song.mangle_notes, k, 3);
    lemma_pattern_bytes_len(entries, song.samples@, song.mangle_notes);
    let front = Seq::new(HEADER_SIZE as nat, |i: int| 0u8) + sample_blocks(song.samples@)
        + order_list(song.positions@);
    assert(front.len() == HEADER_SIZE + SAMPLE_SLOTS * SAMPLE_BLOCK_SIZE + ORDER_LIST_SIZE);
    assert(song_bytes(song) == front + pb);
    let sub = entries.subrange(0, k + 1);
    assert(sub.last() == entries[k]);
    let cell = song.patterns@[p].rows@[r].channel_rows@[c];
    assert(last_entry_bytes(sub, song.samples@, song.mangle_notes) == seq![
        encoded_note(cell.period, selected_sample(sub, c), song.samples@, song.mangle_notes),
        cell.sample,
        cell.effect,
        cell.effect_value,
    ]);
}

} // verus!

