use vstd::prelude::*;

verus! {

/// One entry of the sample catalog. Lengths and loop offsets are in bytes.
pub struct Sample {
    pub name: String,
    pub length: u32,
    pub finetune: u8,
    pub volume: u8,
    pub repeat_start: u32,
    pub repeat_length: u32,
    pub sample_data: Vec<u8>,
}

impl Sample {
    /// A sample with no name, no data and every field zero.
    pub fn empty() -> (r: Sample)
        ensures
            r.name@ == Seq::<char>::empty(),
            r.length == 0,
            r.finetune == 0,
            r.volume == 0,
            r.repeat_start == 0,
            r.repeat_length == 0,
            r.sample_data@ == Seq::<u8>::empty(),
    {
        Sample {
            name: String::new(),
            length: 0,
            finetune: 0,
            volume: 0,
            repeat_start: 0,
            repeat_length: 0,
            sample_data: Vec::new(),
        }
    }
}

/// One channel of one row: a 1-based sample number (0 keeps the channel's
/// sample), a period (0: no note), an effect nibble and its parameter.
#[derive(Clone, Copy, Debug, PartialEq, Eq, Structural)]
pub struct ChannelRow {
    pub sample: u8,
    pub period: u16,
    pub effect: u8,
    pub effect_value: u8,
}

pub struct PatternRow {
    pub channel_rows: Vec<ChannelRow>,
}

pub struct Pattern {
    pub rows: Vec<PatternRow>,
}

/// Number of rows in every pattern.
pub const PATTERN_ROWS: usize = 64;

/// Number of slots in the sample catalog.
pub const SAMPLE_SLOTS: usize = 31;

pub struct Song {
    pub patterns: Vec<Pattern>,
    pub positions: Vec<u8>,
    pub samples: Vec<Sample>,
    pub channel_count: usize,
    pub mangle_notes: bool,
}

/// The module formats that can be told apart by their signature.
#[derive(Clone, Copy, Debug, PartialEq, Eq, Structural)]
pub enum SongFormat {
    Mod,
    S3m,
}

impl Song {
    /// A full sample catalog, and patterns of exactly `PATTERN_ROWS` rows
    /// that each hold one entry per channel.
    pub open spec fn well_formed(&self) -> bool {
        &&& self.samples@.len() == SAMPLE_SLOTS
        &&& forall|p: int|
            0 <= p < self.patterns@.len() ==> #[trigger] self.patterns@[p].rows@.len()
                == PATTERN_ROWS
        &&& forall|p: int, r: int|
            0 <= p < self.patterns@.len() && 0 <= r < PATTERN_ROWS ==> (
            #[trigger] self.patterns@[p].rows@[r]).channel_rows@.len() == self.channel_count
    }

    /// Whether the song is well formed, and so can be encoded.
    pub fn is_well_formed(&self) -> (r: bool)
        ensures
            r == self.well_formed(),
    {
        if self.samples.len() != SAMPLE_SLOTS {
            return false;
        }
        let mut p: usize = 0;
        while p < self.patterns.len()
            invariant
                p <= self.patterns@.len(),
                forall|q: int| 0 <= q < p ==> #[trigger] self.patterns@[q].rows@.len() == PATTERN_ROWS,
                forall|q: int, r: int|
                    0 <= q < p && 0 <= r < PATTERN_ROWS ==> (
                    #[trigger] self.patterns@[q].rows@[r]).channel_rows@.len() == self.channel_count,
            decreases self.patterns@.len() - p,
        {
            let rows = &self.patterns[p].rows;
            if rows.len() != PATTERN_ROWS {
                return false;
            }
            let mut r: usize = 0;
            while r < PATTERN_ROWS
                invariant
                    p < self.patterns@.len(),
                    *rows == self.patterns@[p as int].rows,
                    rows@.len() == PATTERN_ROWS,
                    r <= PATTERN_ROWS,
                    forall|k: int| 0 <= k < r ==> (#[trigger] rows@[k]).channel_rows@.len() == self.channel_count,
                decreases PATTERN_ROWS - r,
            {
                if rows[r].channel_rows.len() != self.channel_count {
                    return false;
                }
                r = r + 1;
            }
            p = p + 1;
        }
        true
    }
}

} // verus!
