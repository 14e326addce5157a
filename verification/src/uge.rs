//! Reading a song from the bytes of a project file.

use crate::song::{
    bank_model, DutyType, EffectId, EnvelopeDirection, InstrCollection, Instrument,
    InstrumentKind, InstrumentModel, LfsrWidth, Note, PatternCell, Song, SongModel,
    SubpatternCell, SweepDirection, WaveOutputLevel,
};
use vstd::prelude::*;
use vstd::slice::slice_subrange;

verus! {

/// The parts of a project file, each named where the reading of it fails.
#[derive(Debug, Clone, Copy, PartialEq, Eq, Structural)]
pub enum ParseContext {
    SongV6,
    InstrCollectionV3,
    InstrBankV3,
    InstrumentV3,
    WaveBankV2,
    WaveV2,
    PatternMapV2,
    PatternMapEntryV2,
    PatternV2,
    SubpatternV2,
    CellV2,
    OrderMatrix,
    OrderColumn,
    RoutineBank,
    Routine,
    Integer,
    Boolean,
    ShortString,
    AnsiString,
}

/// What went wrong at a place of the file, or which part was being read there.
#[derive(Debug, Clone, Copy, PartialEq, Eq, Structural)]
pub enum InnerErrorKind {
    BadBool(u8),
    BadTimerDivider(u32),
    BadInstrType(u32),
    BadEnvDir(u32),
    BadSweepDir(u32),
    BadDutyType(u8),
    BadWaveOutLevel(u32),
    BadLfsrWidth(u32),
    BadNote(u32),
    BadInstrument(u8),
    BadEffectId(u32),
    BadWave(u8),
    OrderNotMatrix(usize, usize, usize, usize),
    /// A number does not fit where it belongs.
    NumOutOfRange,
    /// The part of the file that was being read from here.
    Context(ParseContext),
    /// The file ends too early, or goes on beyond the song.
    Eof,
    /// One of the items of a counted run could not be read.
    Count,
}

/// Where in the file something went wrong, counted in bytes from its start, and what.
pub type TrailEntry = (usize, InnerErrorKind);

/// Why the bytes are no song.
#[derive(Debug, Clone, PartialEq, Eq)]
pub enum ParseErrorKind {
    /// The file is too short to hold a version number.
    NotUge,
    /// The file is of a version from before the one that can be read.
    UnsupportedVersion(u32),
    /// The file is of a version from after the one that can be read.
    TooNew(u32),
    /// The file is broken: the trail leads from what went wrong, through the parts of the file
    /// that were being read, out to the song.
    BadData { trail: Vec<TrailEntry> },
}

#[derive(Debug, Clone, PartialEq, Eq)]
pub struct ParseError(pub ParseErrorKind);

/// The outcome of reading something from a place of the file on: the thing and the place after
/// it, or the trail of what went wrong.
pub type Parsed<T> = Result<(T, int), Seq<TrailEntry>>;

/// The text that a run of bytes stands for, with a mark in place of what is no text.
pub uninterp spec fn utf8_lossy(bytes: Seq<u8>) -> Seq<char>;

/// The number that the four bytes from `at` on stand for, the lowest byte first.
pub open spec fn le_u32_at(bytes: Seq<u8>, at: int) -> Option<u32> {
    if 0 <= at && at + 4 <= bytes.len() {
        Some(
            (bytes[at] + bytes[at + 1] * 0x100 + bytes[at + 2] * 0x1_0000 + bytes[at + 3]
                * 0x100_0000) as u32,
        )
    } else {
        None
    }
}

/// The byte at `at`.
pub open spec fn byte_at(bytes: Seq<u8>, at: int) -> Option<u8> {
    if 0 <= at < bytes.len() {
        Some(bytes[at])
    } else {
        None
    }
}

/// The `count` bytes from `at` on.
pub open spec fn bytes_at(bytes: Seq<u8>, at: int, count: int) -> Option<Seq<u8>> {
    if 0 <= at && 0 <= count && at + count <= bytes.len() {
        Some(bytes.subrange(at, at + count))
    } else {
        None
    }
}

/// `nom::number::complete::le_u32` on the bytes from `at` on: the number that the next four
/// bytes stand for, the lowest byte first; nothing where fewer than four bytes are left.
#[verifier::external_body]
fn le_u32(input: &[u8], at: usize) -> (number: Option<u32>)
    requires
        at <= input.len(),
    ensures
        number == le_u32_at(input@, at as int),
{
    match nom::number::complete::le_u32::<&[u8], ()>(&input[at..]) {
        Ok((_, number)) => Some(number),
        Err(_) => None,
    }
}

/// `nom::number::complete::u8` on the bytes from `at` on: the next byte; nothing where none is
/// left.
#[verifier::external_body]
fn byte(input: &[u8], at: usize) -> (value: Option<u8>)
    requires
        at <= input.len(),
    ensures
        value == byte_at(input@, at as int),
{
    match nom::number::complete::u8::<&[u8], ()>(&input[at..]) {
        Ok((_, value)) => Some(value),
        Err(_) => None,
    }
}

/// `nom::bytes::complete::take` on the bytes from `at` on: the next `count` bytes; nothing
/// where fewer are left.
#[verifier::external_body]
fn take(input: &[u8], at: usize, count: usize) -> (taken: Option<&[u8]>)
    requires
        at <= input.len(),
    ensures
        match taken {
            Some(taken) => bytes_at(input@, at as int, count as int) == Some(taken@),
            None => bytes_at(input@, at as int, count as int) is None,
        },
{
    match nom::bytes::complete::take::<usize, &[u8], ()>(count)(&input[at..]) {
        Ok((_, taken)) => Some(taken),
        Err(_) => None,
    }
}

/// `String::from_utf8_lossy`: the text that the bytes stand for.
#[verifier::external_body]
fn lossy_text(bytes: &[u8]) -> (text: String)
    ensures
        text@ == utf8_lossy(bytes@),
{
    String::from_utf8_lossy(bytes).into_owned()
}

/// The trail of one thing that went wrong.
pub open spec fn fail<T>(at: int, kind: InnerErrorKind) -> Parsed<T> {
    Err(seq![(at as usize, kind)])
}

/// The outcome of reading a part of the file from `at` on: where the reading fails, the part
/// is named on the trail.
pub open spec fn in_context<T>(outcome: Parsed<T>, at: int, context: ParseContext) -> Parsed<T> {
    match outcome {
        Ok(read) => Ok(read),
        Err(trail) => Err(trail.push((at as usize, InnerErrorKind::Context(context)))),
    }
}

/// The trail of a run of items, from `at` on, one of which could not be read.
pub open spec fn miscounted(trail: Seq<TrailEntry>, at: int) -> Seq<TrailEntry> {
    trail.push((at as usize, InnerErrorKind::Count))
}

/// An integer of the file: four bytes, the lowest first.
pub open spec fn spec_integer(bytes: Seq<u8>, at: int) -> Parsed<u32> {
    in_context(
        match le_u32_at(bytes, at) {
            Some(number) => Ok((number, at + 4)),
            None => fail(at, InnerErrorKind::Eof),
        },
        at,
        ParseContext::Integer,
    )
}

/// A boolean of the file: one byte, 0 or 1.
pub open spec fn spec_boolean(bytes: Seq<u8>, at: int) -> Parsed<bool> {
    match byte_at(bytes, at) {
        Some(value) => if value == 0 {
            Ok((false, at + 1))
        } else if value == 1 {
            Ok((true, at + 1))
        } else {
            fail(at + 1, InnerErrorKind::BadBool(value))
        },
        None => in_context(fail(at, InnerErrorKind::Eof), at, ParseContext::Boolean),
    }
}

/// A short string of the file: a byte that says how long the text is, and 255 bytes that hold
/// the text.
pub open spec fn spec_short_string(bytes: Seq<u8>, at: int) -> Parsed<Seq<char>> {
    in_context(
        match byte_at(bytes, at) {
            Some(len) => match bytes_at(bytes, at + 1, 255) {
                Some(raw) => Ok((utf8_lossy(raw.take(len as int)), at + 256)),
                None => fail(at + 1, InnerErrorKind::Eof),
            },
            None => fail(at, InnerErrorKind::Eof),
        },
        at,
        ParseContext::ShortString,
    )
}

/// A long string of the file: an integer that says how long the text is, and the bytes of the
/// text.
pub open spec fn spec_ansi_string(bytes: Seq<u8>, at: int) -> Parsed<Seq<char>> {
    in_context(
        match le_u32_at(bytes, at) {
            Some(len) => if len > usize::MAX {
                fail(at, InnerErrorKind::NumOutOfRange)
            } else {
                match bytes_at(bytes, at + 4, len as int) {
                    Some(raw) => Ok((utf8_lossy(raw), at + 4 + len)),
                    None => fail(at + 4, InnerErrorKind::Eof),
                }
            },
            None => fail(at, InnerErrorKind::Eof),
        },
        at,
        ParseContext::AnsiString,
    )
}

/// An integer of the file that has to fit a byte.
pub open spec fn spec_small_integer(bytes: Seq<u8>, at: int) -> Parsed<u8> {
    match spec_integer(bytes, at) {
        Ok((number, next)) => if number <= 255 {
            Ok((number as u8, next))
        } else {
            fail(at, InnerErrorKind::NumOutOfRange)
        },
        Err(trail) => Err(trail),
    }
}

/// Four bytes of the file, the lowest first, that stand for a number that has to fit a byte.
pub open spec fn spec_small_number(bytes: Seq<u8>, at: int) -> Parsed<u8> {
    match le_u32_at(bytes, at) {
        Some(number) => if number <= 255 {
            Ok((number as u8, at + 4))
        } else {
            fail(at, InnerErrorKind::NumOutOfRange)
        },
        None => fail(at, InnerErrorKind::Eof),
    }
}

/// The outcome of reading as the code has it, seen as what the file's grammar speaks of.
pub open spec fn outcome_of<T>(result: Result<(T, usize), Vec<TrailEntry>>) -> Parsed<T> {
    match result {
        Ok((value, next)) => Ok((value, next as int)),
        Err(trail) => Err(trail@),
    }
}

fn failure<T>(at: usize, kind: InnerErrorKind) -> (result: Result<(T, usize), Vec<TrailEntry>>)
    ensures
        outcome_of(result) == fail::<T>(at as int, kind),
{
    let mut trail: Vec<TrailEntry> = Vec::new();
    trail.push((at, kind));
    assert(trail@ =~= seq![(at, kind)]);
    Err(trail)
}

fn with_context(trail: Vec<TrailEntry>, at: usize, context: ParseContext) -> (longer: Vec<TrailEntry>)
    ensures
        longer@ == trail@.push((at, InnerErrorKind::Context(context))),
{
    let mut trail = trail;
    trail.push((at, InnerErrorKind::Context(context)));
    trail
}

fn with_count(trail: Vec<TrailEntry>, at: usize) -> (longer: Vec<TrailEntry>)
    ensures
        longer@ == miscounted(trail@, at as int),
{
    let mut trail = trail;
    trail.push((at, InnerErrorKind::Count));
    trail
}

fn integer(input: &[u8], at: usize) -> (result: Result<(u32, usize), Vec<TrailEntry>>)
    requires
        at <= input.len(),
    ensures
        outcome_of(result) == spec_integer(input@, at as int),
        result matches Ok((_, next)) ==> next <= input.len(),
{
    match le_u32(input, at) {
        Some(number) => Ok((number, at + 4)),
        None => {
            let mut trail: Vec<TrailEntry> = Vec::new();
            trail.push((at, InnerErrorKind::Eof));
            assert(trail@ =~= seq![(at, InnerErrorKind::Eof)]);
            Err(with_context(trail, at, ParseContext::Integer))
        },
    }
}

fn boolean(input: &[u8], at: usize) -> (result: Result<(bool, usize), Vec<TrailEntry>>)
    requires
        at <= input.len(),
    ensures
        outcome_of(result) == spec_boolean(input@, at as int),
        result matches Ok((_, next)) ==> next <= input.len(),
{
    match byte(input, at) {
        Some(value) => {
            if value == 0 {
                Ok((false, at + 1))
            } else if value == 1 {
                Ok((true, at + 1))
            } else {
                failure(at + 1, InnerErrorKind::BadBool(value))
            }
        },
        None => {
            let mut trail: Vec<TrailEntry> = Vec::new();
            trail.push((at, InnerErrorKind::Eof));
            assert(trail@ =~= seq![(at, InnerErrorKind::Eof)]);
            Err(with_context(trail, at, ParseContext::Boolean))
        },
    }
}

fn short_string(input: &[u8], at: usize) -> (result: Result<(String, usize), Vec<TrailEntry>>)
    requires
        at <= input.len(),
    ensures
        match result {
            Ok((text, next)) => spec_short_string(input@, at as int) == Ok::<
                (Seq<char>, int),
                Seq<TrailEntry>,
            >((text@, next as int)) && next <= input.len(),
            Err(trail) => spec_short_string(input@, at as int) == Err::<
                (Seq<char>, int),
                Seq<TrailEntry>,
            >(trail@),
        },
{
    let len = match byte(input, at) {
        Some(len) => len,
        None => {
            let mut trail: Vec<TrailEntry> = Vec::new();
            trail.push((at, InnerErrorKind::Eof));
            assert(trail@ =~= seq![(at, InnerErrorKind::Eof)]);
            return Err(with_context(trail, at, ParseContext::ShortString));
        },
    };
    match take(input, at + 1, 255) {
        Some(raw) => {
            let text = lossy_text(slice_subrange(raw, 0, len as usize));
            Ok((text, at + 256))
        },
        None => {
            let mut trail: Vec<TrailEntry> = Vec::new();
            trail.push(((at + 1) as usize, InnerErrorKind::Eof));
            assert(trail@ =~= seq![((at + 1) as usize, InnerErrorKind::Eof)]);
            Err(with_context(trail, at, ParseContext::ShortString))
        },
    }
}

fn ansi_string(input: &[u8], at: usize) -> (result: Result<(String, usize), Vec<TrailEntry>>)
    requires
        at <= input.len(),
    ensures
        match result {
            Ok((text, next)) => spec_ansi_string(input@, at as int) == Ok::<
                (Seq<char>, int),
                Seq<TrailEntry>,
            >((text@, next as int)) && next <= input.len(),
            Err(trail) => spec_ansi_string(input@, at as int) == Err::<
                (Seq<char>, int),
                Seq<TrailEntry>,
            >(trail@),
        },
{
    let len = match le_u32(input, at) {
        Some(len) => len,
        None => {
            let mut trail: Vec<TrailEntry> = Vec::new();
            trail.push((at, InnerErrorKind::Eof));
            assert(trail@ =~= seq![(at, InnerErrorKind::Eof)]);
            return Err(with_context(trail, at, ParseContext::AnsiString));
        },
    };
    if len as u64 > usize::MAX as u64 {
        let mut trail: Vec<TrailEntry> = Vec::new();
        trail.push((at, InnerErrorKind::NumOutOfRange));
        assert(trail@ =~= seq![(at, InnerErrorKind::NumOutOfRange)]);
        return Err(with_context(trail, at, ParseContext::AnsiString));
    }
    match take(input, at + 4, len as usize) {
        Some(raw) => {
            let text = lossy_text(raw);
            Ok((text, at + 4 + len as usize))
        },
        None => {
            let mut trail: Vec<TrailEntry> = Vec::new();
            trail.push(((at + 4) as usize, InnerErrorKind::Eof));
            assert(trail@ =~= seq![((at + 4) as usize, InnerErrorKind::Eof)]);
            Err(with_context(trail, at, ParseContext::AnsiString))
        },
    }
}

fn small_integer(input: &[u8], at: usize) -> (result: Result<(u8, usize), Vec<TrailEntry>>)
    requires
        at <= input.len(),
    ensures
        outcome_of(result) == spec_small_integer(input@, at as int),
        result matches Ok((_, next)) ==> next <= input.len(),
{
    match integer(input, at) {
        Ok((number, next)) => {
            if number <= 255 {
                Ok((number as u8, next))
            } else {
                failure(at, InnerErrorKind::NumOutOfRange)
            }
        },
        Err(trail) => Err(trail),
    }
}

fn small_number(input: &[u8], at: usize) -> (result: Result<(u8, usize), Vec<TrailEntry>>)
    requires
        at <= input.len(),
    ensures
        outcome_of(result) == spec_small_number(input@, at as int),
        result matches Ok((_, next)) ==> next <= input.len(),
{
    match le_u32(input, at) {
        Some(number) => {
            if number <= 255 {
                Ok((number as u8, at + 4))
            } else {
                failure(at, InnerErrorKind::NumOutOfRange)
            }
        },
        None => failure(at, InnerErrorKind::Eof),
    }
}

/// A cell as the file has it, for a pattern of either kind.
#[derive(Debug, Clone, Copy, PartialEq, Eq, Structural)]
pub struct RawCell {
    /// The note; in a subpattern, the offset of the note.
    pub note: u8,
    /// The instrument; a subpattern has none.
    pub instrument: u8,
    /// The row to jump to, counted from 1, or 0; a pattern of the main grid has none.
    pub jump_index: u8,
    pub effect_code: EffectId,
    pub effect_params: u8,
}

impl RawCell {
    /// The cell, unless it names an instrument beyond the fifteenth.
    pub open spec fn spec_try_new(
        note: u8,
        instrument: u8,
        jump_index: u8,
        effect_code: EffectId,
        effect_params: u8,
    ) -> Result<RawCell, InnerErrorKind> {
        if instrument >= 16 {
            Err(InnerErrorKind::BadInstrument(instrument))
        } else {
            Ok(RawCell { note, instrument, jump_index, effect_code, effect_params })
        }
    }

    #[verifier::when_used_as_spec(spec_try_new)]
    pub fn try_new(
        note: u8,
        instrument: u8,
        jump_index: u8,
        effect_code: EffectId,
        effect_params: u8,
    ) -> (cell: Result<RawCell, InnerErrorKind>)
        ensures
            cell == Self::spec_try_new(note, instrument, jump_index, effect_code, effect_params),
    {
        if instrument >= 16 {
            Err(InnerErrorKind::BadInstrument(instrument))
        } else {
            Ok(RawCell { note, instrument, jump_index, effect_code, effect_params })
        }
    }

    /// The cell as a cell of a pattern of the main grid, unless its note is none.
    pub open spec fn spec_pattern_cell(self) -> Result<PatternCell, InnerErrorKind> {
        match Note::spec_from_value(self.note as u32) {
            Some(note) => Ok(
                PatternCell {
                    note,
                    instrument: self.instrument,
                    effect_code: self.effect_code,
                    effect_param: self.effect_params,
                },
            ),
            None => Err(InnerErrorKind::BadNote(self.note as u32)),
        }
    }

    /// The cell as a cell of a subpattern: a jump beyond the last row is one to the last row.
    pub open spec fn spec_subpattern_cell(self) -> SubpatternCell {
        SubpatternCell {
            offset: self.note,
            next_row_idx: if self.jump_index > 32 {
                32
            } else {
                self.jump_index
            },
            effect_code: self.effect_code,
            effect_param: self.effect_params,
        }
    }

    #[verifier::when_used_as_spec(spec_pattern_cell)]
    pub fn pattern_cell(self) -> (cell: Result<PatternCell, InnerErrorKind>)
        ensures
            cell == self.spec_pattern_cell(),
    {
        match Note::from_value(self.note as u32) {
            Some(note) => Ok(
                PatternCell {
                    note,
                    instrument: self.instrument,
                    effect_code: self.effect_code,
                    effect_param: self.effect_params,
                },
            ),
            None => Err(InnerErrorKind::BadNote(self.note as u32)),
        }
    }

    #[verifier::when_used_as_spec(spec_subpattern_cell)]
    pub fn subpattern_cell(self) -> (cell: SubpatternCell)
        ensures
            cell == self.spec_subpattern_cell(),
    {
        SubpatternCell {
            offset: self.note,
            next_row_idx: if self.jump_index > 32 {
                32
            } else {
                self.jump_index
            },
            effect_code: self.effect_code,
            effect_param: self.effect_params,
        }
    }
}

/// The number of an effect.
pub open spec fn spec_effect(bytes: Seq<u8>, at: int) -> Parsed<EffectId> {
    match spec_integer(bytes, at) {
        Ok((code, next)) => match EffectId::spec_from_code(code) {
            Some(id) => Ok((id, next)),
            None => fail(at, InnerErrorKind::BadEffectId(code)),
        },
        Err(trail) => Err(trail),
    }
}

/// The fields of a cell: four integers, for the note, the instrument, the jump and the
/// effect, and a byte for the effect's parameter.
pub open spec fn spec_cell_fields(bytes: Seq<u8>, at: int) -> Parsed<RawCell> {
    match spec_small_integer(bytes, at) {
        Err(trail) => Err(trail),
        Ok((note, at_instrument)) => match spec_small_integer(bytes, at_instrument) {
            Err(trail) => Err(trail),
            Ok((instrument, at_jump)) => match spec_small_integer(bytes, at_jump) {
                Err(trail) => Err(trail),
                Ok((jump_index, at_effect)) => match spec_effect(bytes, at_effect) {
                    Err(trail) => Err(trail),
                    Ok((effect_code, at_params)) => match byte_at(bytes, at_params) {
                        None => fail(at_params, InnerErrorKind::Eof),
                        Some(effect_params) => match RawCell::spec_try_new(
                            note,
                            instrument,
                            jump_index,
                            effect_code,
                            effect_params,
                        ) {
                            Ok(cell) => Ok((cell, at_params + 1)),
                            Err(kind) => fail(at_params + 1, kind),
                        },
                    },
                },
            },
        },
    }
}

/// A cell as the file has it.
pub open spec fn spec_raw_cell(bytes: Seq<u8>, at: int) -> Parsed<RawCell> {
    in_context(spec_cell_fields(bytes, at), at, ParseContext::CellV2)
}

/// A cell of a pattern of the main grid.
pub open spec fn spec_pattern_cell(bytes: Seq<u8>, at: int) -> Parsed<PatternCell> {
    match spec_raw_cell(bytes, at) {
        Ok((raw, next)) => match raw.spec_pattern_cell() {
            Ok(cell) => Ok((cell, next)),
            Err(kind) => fail(at, kind),
        },
        Err(trail) => Err(trail),
    }
}

/// A cell of a subpattern.
pub open spec fn spec_subpattern_cell(bytes: Seq<u8>, at: int) -> Parsed<SubpatternCell> {
    match spec_raw_cell(bytes, at) {
        Ok((raw, next)) => Ok((raw.spec_subpattern_cell(), next)),
        Err(trail) => Err(trail),
    }
}

/// The cells of a pattern that follow `cells`: `remaining` more, read from `at` on. The
/// pattern starts at `start`.
pub open spec fn spec_pattern_cells(
    bytes: Seq<u8>,
    start: int,
    at: int,
    remaining: nat,
    cells: Seq<PatternCell>,
) -> Parsed<Seq<PatternCell>>
    decreases remaining,
{
    if remaining == 0 {
        Ok((cells, at))
    } else {
        match spec_pattern_cell(bytes, at) {
            Ok((cell, next)) => spec_pattern_cells(
                bytes,
                start,
                next,
                (remaining - 1) as nat,
                cells.push(cell),
            ),
            Err(trail) => Err(miscounted(trail, start)),
        }
    }
}

/// A pattern of the main grid: 64 cells.
pub open spec fn spec_pattern(bytes: Seq<u8>, at: int) -> Parsed<Seq<PatternCell>> {
    in_context(spec_pattern_cells(bytes, at, at, 64, Seq::empty()), at, ParseContext::PatternV2)
}

/// The cells of a subpattern that follow `cells`: `remaining` more, read from `at` on.
pub open spec fn spec_subpattern_cells(
    bytes: Seq<u8>,
    start: int,
    at: int,
    remaining: nat,
    cells: Seq<SubpatternCell>,
) -> Parsed<Seq<SubpatternCell>>
    decreases remaining,
{
    if remaining == 0 {
        Ok((cells, at))
    } else {
        match spec_subpattern_cell(bytes, at) {
            Ok((cell, next)) => spec_subpattern_cells(
                bytes,
                start,
                next,
                (remaining - 1) as nat,
                cells.push(cell),
            ),
            Err(trail) => Err(miscounted(trail, start)),
        }
    }
}

/// The place after `remaining` cells from `at` on, which the file holds and no pattern uses.
pub open spec fn spec_unused_cells(bytes: Seq<u8>, at: int, remaining: nat) -> Parsed<()>
    decreases remaining,
{
    if remaining == 0 {
        Ok(((), at))
    } else {
        match spec_raw_cell(bytes, at) {
            Ok((_, next)) => spec_unused_cells(bytes, next, (remaining - 1) as nat),
            Err(trail) => Err(trail),
        }
    }
}

/// The rows of a subpattern as playback wants them: each row names the row that plays after
/// it. In the file a row names the row to jump to, counted from 1, or 0 to go on to the next.
pub open spec fn with_next_rows(cells: Seq<SubpatternCell>) -> Seq<SubpatternCell> {
    Seq::new(
        cells.len(),
        |i: int|
            SubpatternCell {
                offset: cells[i].offset,
                next_row_idx: if cells[i].next_row_idx == 0 {
                    ((i + 1) % 32) as u8
                } else {
                    (cells[i].next_row_idx - 1) as u8
                },
                effect_code: cells[i].effect_code,
                effect_param: cells[i].effect_param,
            },
    )
}

/// The cells of a subpattern, and what follows them.
pub open spec fn spec_subpattern_fields(bytes: Seq<u8>, at: int) -> Parsed<Seq<SubpatternCell>> {
    match spec_subpattern_cells(bytes, at, at, 32, Seq::empty()) {
        Ok((cells, next)) => match spec_unused_cells(bytes, next, 32) {
            Ok((_, end)) => Ok((with_next_rows(cells), end)),
            Err(trail) => Err(trail),
        },
        Err(trail) => Err(trail),
    }
}

/// A subpattern: 32 cells, and 32 more that no subpattern uses.
pub open spec fn spec_subpattern(bytes: Seq<u8>, at: int) -> Parsed<Seq<SubpatternCell>> {
    in_context(spec_subpattern_fields(bytes, at), at, ParseContext::SubpatternV2)
}

fn effect(input: &[u8], at: usize) -> (result: Result<(EffectId, usize), Vec<TrailEntry>>)
    requires
        at <= input.len(),
    ensures
        outcome_of(result) == spec_effect(input@, at as int),
        result matches Ok((_, next)) ==> next <= input.len(),
{
    match integer(input, at) {
        Ok((code, next)) => match EffectId::from_code(code) {
            Some(id) => Ok((id, next)),
            None => failure(at, InnerErrorKind::BadEffectId(code)),
        },
        Err(trail) => Err(trail),
    }
}

fn cell_fields(input: &[u8], at: usize) -> (result: Result<(RawCell, usize), Vec<TrailEntry>>)
    requires
        at <= input.len(),
    ensures
        outcome_of(result) == spec_cell_fields(input@, at as int),
        result matches Ok((_, next)) ==> next <= input.len(),
{
    let (note, at_instrument) = small_integer(input, at)?;
    let (instrument, at_jump) = small_integer(input, at_instrument)?;
    let (jump_index, at_effect) = small_integer(input, at_jump)?;
    let (effect_code, at_params) = effect(input, at_effect)?;
    let effect_params = match byte(input, at_params) {
        Some(effect_params) => effect_params,
        None => {
            return failure(at_params, InnerErrorKind::Eof);
        },
    };
    match RawCell::try_new(note, instrument, jump_index, effect_code, effect_params) {
        Ok(cell) => Ok((cell, at_params + 1)),
        Err(kind) => failure(at_params + 1, kind),
    }
}

fn cell_v2(input: &[u8], at: usize) -> (result: Result<(RawCell, usize), Vec<TrailEntry>>)
    requires
        at <= input.len(),
    ensures
        outcome_of(result) == spec_raw_cell(input@, at as int),
        result matches Ok((_, next)) ==> next <= input.len(),
{
    match cell_fields(input, at) {
        Ok(read) => Ok(read),
        Err(trail) => Err(with_context(trail, at, ParseContext::CellV2)),
    }
}

fn pattern_cell(input: &[u8], at: usize) -> (result: Result<(PatternCell, usize), Vec<TrailEntry>>)
    requires
        at <= input.len(),
    ensures
        outcome_of(result) == spec_pattern_cell(input@, at as int),
        result matches Ok((_, next)) ==> next <= input.len(),
{
    match cell_v2(input, at) {
        Ok((raw, next)) => match raw.pattern_cell() {
            Ok(cell) => Ok((cell, next)),
            Err(kind) => failure(at, kind),
        },
        Err(trail) => Err(trail),
    }
}

fn subpattern_cell(input: &[u8], at: usize) -> (result: Result<
    (SubpatternCell, usize),
    Vec<TrailEntry>,
>)
    requires
        at <= input.len(),
    ensures
        outcome_of(result) == spec_subpattern_cell(input@, at as int),
        result matches Ok((_, next)) ==> next <= input.len(),
{
    match cell_v2(input, at) {
        Ok((raw, next)) => Ok((raw.subpattern_cell(), next)),
        Err(trail) => Err(trail),
    }
}

fn pattern_v2(input: &[u8], at: usize) -> (result: Result<
    ([PatternCell; 64], usize),
    Vec<TrailEntry>,
>)
    requires
        at <= input.len(),
    ensures
        match result {
            Ok((pattern, next)) => spec_pattern(input@, at as int) == Ok::<
                (Seq<PatternCell>, int),
                Seq<TrailEntry>,
            >((pattern@, next as int)) && next <= input.len(),
            Err(trail) => spec_pattern(input@, at as int) == Err::<
                (Seq<PatternCell>, int),
                Seq<TrailEntry>,
            >(trail@),
        },
{
    let blank = PatternCell::default();
    let mut pattern: [PatternCell; 64] = [blank; 64];
    let mut next = at;
    let mut i: usize = 0;
    assert(pattern@.take(0) =~= Seq::<PatternCell>::empty());
    while i < 64
        invariant
            i <= 64,
            at <= next <= input.len(),
            spec_pattern_cells(input@, at as int, at as int, 64, Seq::empty())
                == spec_pattern_cells(
                input@,
                at as int,
                next as int,
                (64 - i) as nat,
                pattern@.take(i as int),
            ),
        decreases 64 - i,
    {
        let ghost before = pattern@;
        match pattern_cell(input, next) {
            Ok((cell, after)) => {
                pattern[i] = cell;
                next = after;
                assert(pattern@.take(i + 1) =~= before.take(i as int).push(cell));
            },
            Err(trail) => {
                return Err(with_context(with_count(trail, at), at, ParseContext::PatternV2));
            },
        }
        i += 1;
    }
    assert(pattern@.take(64) =~= pattern@);
    Ok((pattern, next))
}

fn unused_cells(input: &[u8], at: usize) -> (result: Result<((), usize), Vec<TrailEntry>>)
    requires
        at <= input.len(),
    ensures
        outcome_of(result) == spec_unused_cells(input@, at as int, 32),
        result matches Ok((_, next)) ==> next <= input.len(),
{
    let mut next = at;
    let mut i: usize = 0;
    while i < 32
        invariant
            i <= 32,
            at <= next <= input.len(),
            spec_unused_cells(input@, at as int, 32) == spec_unused_cells(
                input@,
                next as int,
                (32 - i) as nat,
            ),
        decreases 32 - i,
    {
        match cell_v2(input, next) {
            Ok((_, after)) => {
                next = after;
            },
            Err(trail) => {
                return Err(trail);
            },
        }
        i += 1;
    }
    Ok(((), next))
}

fn subpattern_fields(input: &[u8], at: usize) -> (result: Result<
    ([SubpatternCell; 32], usize),
    Vec<TrailEntry>,
>)
    requires
        at <= input.len(),
    ensures
        match result {
            Ok((subpattern, next)) => spec_subpattern_fields(input@, at as int) == Ok::<
                (Seq<SubpatternCell>, int),
                Seq<TrailEntry>,
            >((subpattern@, next as int)) && next <= input.len(),
            Err(trail) => spec_subpattern_fields(input@, at as int) == Err::<
                (Seq<SubpatternCell>, int),
                Seq<TrailEntry>,
            >(trail@),
        },
{
    let blank = SubpatternCell::default();
    let mut subpattern: [SubpatternCell; 32] = [blank; 32];
    let mut next = at;
    let mut i: usize = 0;
    assert(subpattern@.take(0) =~= Seq::<SubpatternCell>::empty());
    while i < 32
        invariant
            i <= 32,
            at <= next <= input.len(),
            spec_subpattern_cells(input@, at as int, at as int, 32, Seq::empty())
                == spec_subpattern_cells(
                input@,
                at as int,
                next as int,
                (32 - i) as nat,
                subpattern@.take(i as int),
            ),
        decreases 32 - i,
    {
        let ghost before = subpattern@;
        match subpattern_cell(input, next) {
            Ok((cell, after)) => {
                subpattern[i] = cell;
                next = after;
                assert(subpattern@.take(i + 1) =~= before.take(i as int).push(cell));
            },
            Err(trail) => {
                return Err(with_count(trail, at));
            },
        }
        i += 1;
    }
    assert(subpattern@.take(32) =~= subpattern@);
    // The file holds as many cells again, which go unused.
    let (_, end) = unused_cells(input, next)?;
    // Five bits cannot tell "no jump" from a jump to each of 32 rows: so jump always.
    let ghost read = subpattern@;
    let mut i: usize = 0;
    while i < 32
        invariant
            i <= 32,
            read.len() == 32,
            forall|k: int| 0 <= k < i ==> #[trigger] subpattern@[k] == with_next_rows(read)[k],
            forall|k: int| i <= k < 32 ==> #[trigger] subpattern@[k] == read[k],
        decreases 32 - i,
    {
        let cell = subpattern[i];
        let next_row_idx = if cell.next_row_idx == 0 {
            ((i + 1) % 32) as u8
        } else {
            cell.next_row_idx - 1
        };
        subpattern[i] = SubpatternCell {
            offset: cell.offset,
            next_row_idx,
            effect_code: cell.effect_code,
            effect_param: cell.effect_param,
        };
        i += 1;
    }
    assert(subpattern@ =~= with_next_rows(read));
    Ok((subpattern, end))
}

fn subpattern_v2(input: &[u8], at: usize) -> (result: Result<
    ([SubpatternCell; 32], usize),
    Vec<TrailEntry>,
>)
    requires
        at <= input.len(),
    ensures
        match result {
            Ok((subpattern, next)) => spec_subpattern(input@, at as int) == Ok::<
                (Seq<SubpatternCell>, int),
                Seq<TrailEntry>,
            >((subpattern@, next as int)) && next <= input.len(),
            Err(trail) => spec_subpattern(input@, at as int) == Err::<
                (Seq<SubpatternCell>, int),
                Seq<TrailEntry>,
            >(trail@),
        },
{
    match subpattern_fields(input, at) {
        Ok(read) => Ok(read),
        Err(trail) => Err(with_context(trail, at, ParseContext::SubpatternV2)),
    }
}

/// The direction that a number stands for.
pub open spec fn spec_envelope_dir(number: u32) -> Result<EnvelopeDirection, InnerErrorKind> {
    if number == 0 {
        Ok(EnvelopeDirection::Up)
    } else if number == 1 {
        Ok(EnvelopeDirection::Down)
    } else {
        Err(InnerErrorKind::BadEnvDir(number))
    }
}

pub open spec fn spec_sweep_dir(number: u32) -> Result<SweepDirection, InnerErrorKind> {
    if number == 0 {
        Ok(SweepDirection::Up)
    } else if number == 1 {
        Ok(SweepDirection::Down)
    } else {
        Err(InnerErrorKind::BadSweepDir(number))
    }
}

pub open spec fn spec_duty_type(number: u8) -> Result<DutyType, InnerErrorKind> {
    if number == 0 {
        Ok(DutyType::Percent12_5)
    } else if number == 1 {
        Ok(DutyType::Percent25)
    } else if number == 2 {
        Ok(DutyType::Percent50)
    } else if number == 3 {
        Ok(DutyType::Percent75)
    } else {
        Err(InnerErrorKind::BadDutyType(number))
    }
}

pub open spec fn spec_output_level(number: u32) -> Result<WaveOutputLevel, InnerErrorKind> {
    if number == 0 {
        Ok(WaveOutputLevel::Mute)
    } else if number == 1 {
        Ok(WaveOutputLevel::Full)
    } else if number == 2 {
        Ok(WaveOutputLevel::Half)
    } else if number == 3 {
        Ok(WaveOutputLevel::Quarter)
    } else {
        Err(InnerErrorKind::BadWaveOutLevel(number))
    }
}

pub open spec fn spec_lfsr_width(number: u32) -> Result<LfsrWidth, InnerErrorKind> {
    if number == 0 {
        Ok(LfsrWidth::Fifteen)
    } else if number == 1 {
        Ok(LfsrWidth::Seven)
    } else {
        Err(InnerErrorKind::BadLfsrWidth(number))
    }
}

/// Four bytes, the lowest first, that stand for one of a few things, each by its number.
pub open spec fn spec_choice<T>(
    bytes: Seq<u8>,
    at: int,
    of_number: spec_fn(u32) -> Result<T, InnerErrorKind>,
) -> Parsed<T> {
    match le_u32_at(bytes, at) {
        Some(number) => match of_number(number) {
            Ok(choice) => Ok((choice, at + 4)),
            Err(kind) => fail(at, kind),
        },
        None => fail(at, InnerErrorKind::Eof),
    }
}

/// The first fields of an instrument: the number of its kind, its name, its length and whether
/// the length counts.
pub open spec fn spec_instrument_head(bytes: Seq<u8>, at: int) -> Parsed<
    (u32, Seq<char>, Option<u8>),
> {
    match le_u32_at(bytes, at) {
        None => fail(at, InnerErrorKind::Eof),
        Some(kind) => match spec_short_string(bytes, at + 4) {
            Err(trail) => Err(trail),
            Ok((name, at_length)) => match spec_small_integer(bytes, at_length) {
                Err(trail) => Err(trail),
                Ok((length, at_enabled)) => match spec_boolean(bytes, at_enabled) {
                    Err(trail) => Err(trail),
                    Ok((enabled, next)) => Ok(
                        (
                            (
                                kind,
                                name,
                                if enabled {
                                    Some(length)
                                } else {
                                    None
                                },
                            ),
                            next,
                        ),
                    ),
                },
            },
        },
    }
}

/// The fields of an instrument that shape its sound.
pub struct SoundFields {
    pub initial_volume: u8,
    pub envelope_dir: EnvelopeDirection,
    pub envelope_pace: u8,
    pub sweep_time: u8,
    pub sweep_dir: SweepDirection,
    pub sweep_shift: u8,
    pub duty: DutyType,
    pub output_level: WaveOutputLevel,
    pub waveform: u8,
    pub lfsr_width: LfsrWidth,
}

/// The envelope of an instrument: volume, direction and pace.
pub open spec fn spec_envelope(bytes: Seq<u8>, at: int) -> Parsed<(u8, EnvelopeDirection, u8)> {
    match byte_at(bytes, at) {
        None => fail(at, InnerErrorKind::Eof),
        Some(initial_volume) => match spec_choice(
            bytes,
            at + 1,
            |number: u32| spec_envelope_dir(number),
        ) {
            Err(trail) => Err(trail),
            Ok((envelope_dir, at_pace)) => match byte_at(bytes, at_pace) {
                None => fail(at_pace, InnerErrorKind::Eof),
                Some(envelope_pace) => Ok(((initial_volume, envelope_dir, envelope_pace), at_pace + 1)),
            },
        },
    }
}

/// The sweep of an instrument: time, direction and shift.
pub open spec fn spec_sweep(bytes: Seq<u8>, at: int) -> Parsed<(u8, SweepDirection, u8)> {
    match spec_small_number(bytes, at) {
        Err(trail) => Err(trail),
        Ok((sweep_time, at_dir)) => match spec_choice(
            bytes,
            at_dir,
            |number: u32| spec_sweep_dir(number),
        ) {
            Err(trail) => Err(trail),
            Ok((sweep_dir, at_shift)) => match spec_small_number(bytes, at_shift) {
                Err(trail) => Err(trail),
                Ok((sweep_shift, next)) => Ok(((sweep_time, sweep_dir, sweep_shift), next)),
            },
        },
    }
}

/// The duty of an instrument: one byte.
pub open spec fn spec_duty(bytes: Seq<u8>, at: int) -> Parsed<DutyType> {
    match byte_at(bytes, at) {
        None => fail(at, InnerErrorKind::Eof),
        Some(number) => match spec_duty_type(number) {
            Ok(duty) => Ok((duty, at + 1)),
            Err(kind) => fail(at, kind),
        },
    }
}

/// What only a wave or a noise instrument has: output level, wave, and width of the shift
/// register.
pub open spec fn spec_wave_and_noise(bytes: Seq<u8>, at: int) -> Parsed<
    (WaveOutputLevel, u8, LfsrWidth),
> {
    match spec_choice(bytes, at, |number: u32| spec_output_level(number)) {
        Err(trail) => Err(trail),
        Ok((output_level, at_waveform)) => match spec_small_number(bytes, at_waveform) {
            Err(trail) => Err(trail),
            Ok((waveform, at_width)) => match spec_choice(
                bytes,
                at_width,
                |number: u32| spec_lfsr_width(number),
            ) {
                Err(trail) => Err(trail),
                Ok((lfsr_width, next)) => Ok(((output_level, waveform, lfsr_width), next)),
            },
        },
    }
}

/// The fields of an instrument that shape its sound; each instrument has them all.
pub open spec fn spec_sound_fields(bytes: Seq<u8>, at: int) -> Parsed<SoundFields> {
    match spec_envelope(bytes, at) {
        Err(trail) => Err(trail),
        Ok((envelope, at_sweep)) => match spec_sweep(bytes, at_sweep) {
            Err(trail) => Err(trail),
            Ok((sweep, at_duty)) => match spec_duty(bytes, at_duty) {
                Err(trail) => Err(trail),
                Ok((duty, at_wave)) => match spec_wave_and_noise(bytes, at_wave) {
                    Err(trail) => Err(trail),
                    Ok((wave_and_noise, next)) => Ok(
                        (
                            SoundFields {
                                initial_volume: envelope.0,
                                envelope_dir: envelope.1,
                                envelope_pace: envelope.2,
                                sweep_time: sweep.0,
                                sweep_dir: sweep.1,
                                sweep_shift: sweep.2,
                                duty,
                                output_level: wave_and_noise.0,
                                waveform: wave_and_noise.1,
                                lfsr_width: wave_and_noise.2,
                            },
                            next,
                        ),
                    ),
                },
            },
        },
    }
}

/// The last fields of an instrument: whether it has a subpattern, and the subpattern.
pub open spec fn spec_instrument_tail(bytes: Seq<u8>, at: int) -> Parsed<
    Option<Seq<SubpatternCell>>,
> {
    match spec_boolean(bytes, at) {
        Err(trail) => Err(trail),
        Ok((enabled, at_subpattern)) => match spec_subpattern(bytes, at_subpattern) {
            Err(trail) => Err(trail),
            Ok((subpattern, next)) => Ok(
                (
                    if enabled {
                        Some(subpattern)
                    } else {
                        None
                    },
                    next,
                ),
            ),
        },
    }
}

/// What the number of a kind and the fields of the sound make of an instrument.
pub open spec fn spec_instrument_kind(kind: u32, sound: SoundFields) -> Result<
    InstrumentKind,
    InnerErrorKind,
> {
    if kind == 0 {
        Ok(
            InstrumentKind::Square {
                initial_volume: sound.initial_volume,
                envelope_dir: sound.envelope_dir,
                envelope_pace: sound.envelope_pace,
                sweep_time: sound.sweep_time,
                sweep_dir: sound.sweep_dir,
                sweep_shift: sound.sweep_shift,
                duty: sound.duty,
            },
        )
    } else if kind == 1 {
        Ok(InstrumentKind::Wave { output_level: sound.output_level, wave_id: sound.waveform })
    } else if kind == 2 {
        Ok(
            InstrumentKind::Noise {
                initial_volume: sound.initial_volume,
                envelope_dir: sound.envelope_dir,
                envelope_pace: sound.envelope_pace,
                lfsr_width: sound.lfsr_width,
            },
        )
    } else {
        Err(InnerErrorKind::BadInstrType(kind))
    }
}

/// The fields of an instrument. The number of its kind is looked at last.
pub open spec fn spec_instrument_fields(bytes: Seq<u8>, at: int) -> Parsed<InstrumentModel> {
    match spec_instrument_head(bytes, at) {
        Err(trail) => Err(trail),
        Ok((head, at_sound)) => match spec_sound_fields(bytes, at_sound) {
            Err(trail) => Err(trail),
            Ok((sound, at_tail)) => match spec_instrument_tail(bytes, at_tail) {
                Err(trail) => Err(trail),
                Ok((subpattern, next)) => match spec_instrument_kind(head.0, sound) {
                    Ok(kind) => Ok(
                        (
                            InstrumentModel { name: head.1, length: head.2, kind, subpattern },
                            next,
                        ),
                    ),
                    Err(kind) => fail(at, kind),
                },
            },
        },
    }
}

/// An instrument.
#[verifier::opaque]
pub open spec fn spec_instrument(bytes: Seq<u8>, at: int) -> Parsed<InstrumentModel> {
    in_context(spec_instrument_fields(bytes, at), at, ParseContext::InstrumentV3)
}

/// The instruments of a bank that follow `instruments`: `remaining` more, read from `at` on.
pub open spec fn spec_instruments(
    bytes: Seq<u8>,
    start: int,
    at: int,
    remaining: nat,
    instruments: Seq<InstrumentModel>,
) -> Parsed<Seq<InstrumentModel>>
    decreases remaining,
{
    if remaining == 0 {
        Ok((instruments, at))
    } else {
        match spec_instrument(bytes, at) {
            Ok((instrument, next)) => spec_instruments(
                bytes,
                start,
                next,
                (remaining - 1) as nat,
                instruments.push(instrument),
            ),
            Err(trail) => Err(miscounted(trail, start)),
        }
    }
}

/// A bank of instruments: 15 of them.
pub open spec fn spec_instr_bank(bytes: Seq<u8>, at: int) -> Parsed<Seq<InstrumentModel>> {
    in_context(spec_instruments(bytes, at, at, 15, Seq::empty()), at, ParseContext::InstrBankV3)
}

/// The three banks of instruments: duty, wave and noise.
pub open spec fn spec_instr_collection(bytes: Seq<u8>, at: int) -> Parsed<
    (Seq<InstrumentModel>, Seq<InstrumentModel>, Seq<InstrumentModel>),
> {
    in_context(
        match spec_instr_bank(bytes, at) {
            Err(trail) => Err(trail),
            Ok((duty, at_wave)) => match spec_instr_bank(bytes, at_wave) {
                Err(trail) => Err(trail),
                Ok((wave, at_noise)) => match spec_instr_bank(bytes, at_noise) {
                    Err(trail) => Err(trail),
                    Ok((noise, next)) => Ok(((duty, wave, noise), next)),
                },
            },
        },
        at,
        ParseContext::InstrCollectionV3,
    )
}

fn envelope_dir(number: u32) -> (dir: Result<EnvelopeDirection, InnerErrorKind>)
    ensures
        dir == spec_envelope_dir(number),
{
    if number == 0 {
        Ok(EnvelopeDirection::Up)
    } else if number == 1 {
        Ok(EnvelopeDirection::Down)
    } else {
        Err(InnerErrorKind::BadEnvDir(number))
    }
}

fn sweep_dir(number: u32) -> (dir: Result<SweepDirection, InnerErrorKind>)
    ensures
        dir == spec_sweep_dir(number),
{
    if number == 0 {
        Ok(SweepDirection::Up)
    } else if number == 1 {
        Ok(SweepDirection::Down)
    } else {
        Err(InnerErrorKind::BadSweepDir(number))
    }
}

fn duty_type(number: u8) -> (duty: Result<DutyType, InnerErrorKind>)
    ensures
        duty == spec_duty_type(number),
{
    if number == 0 {
        Ok(DutyType::Percent12_5)
    } else if number == 1 {
        Ok(DutyType::Percent25)
    } else if number == 2 {
        Ok(DutyType::Percent50)
    } else if number == 3 {
        Ok(DutyType::Percent75)
    } else {
        Err(InnerErrorKind::BadDutyType(number))
    }
}

fn output_level(number: u32) -> (level: Result<WaveOutputLevel, InnerErrorKind>)
    ensures
        level == spec_output_level(number),
{
    if number == 0 {
        Ok(WaveOutputLevel::Mute)
    } else if number == 1 {
        Ok(WaveOutputLevel::Full)
    } else if number == 2 {
        Ok(WaveOutputLevel::Half)
    } else if number == 3 {
        Ok(WaveOutputLevel::Quarter)
    } else {
        Err(InnerErrorKind::BadWaveOutLevel(number))
    }
}

fn lfsr_width(number: u32) -> (width: Result<LfsrWidth, InnerErrorKind>)
    ensures
        width == spec_lfsr_width(number),
{
    if number == 0 {
        Ok(LfsrWidth::Fifteen)
    } else if number == 1 {
        Ok(LfsrWidth::Seven)
    } else {
        Err(InnerErrorKind::BadLfsrWidth(number))
    }
}

fn number_at(input: &[u8], at: usize) -> (result: Result<(u32, usize), Vec<TrailEntry>>)
    requires
        at <= input.len(),
    ensures
        match result {
            Ok((number, next)) => le_u32_at(input@, at as int) == Some(number) && next == at + 4
                && next <= input.len(),
            Err(trail) => le_u32_at(input@, at as int) is None && trail@ == seq![
                (at, InnerErrorKind::Eof),
            ],
        },
{
    match le_u32(input, at) {
        Some(number) => Ok((number, at + 4)),
        None => {
            let mut trail: Vec<TrailEntry> = Vec::new();
            trail.push((at, InnerErrorKind::Eof));
            assert(trail@ =~= seq![(at, InnerErrorKind::Eof)]);
            Err(trail)
        },
    }
}

fn byte_value(input: &[u8], at: usize) -> (result: Result<(u8, usize), Vec<TrailEntry>>)
    requires
        at <= input.len(),
    ensures
        match result {
            Ok((value, next)) => byte_at(input@, at as int) == Some(value) && next == at + 1
                && next <= input.len(),
            Err(trail) => byte_at(input@, at as int) is None && trail@ == seq![
                (at, InnerErrorKind::Eof),
            ],
        },
{
    match byte(input, at) {
        Some(value) => Ok((value, at + 1)),
        None => {
            let mut trail: Vec<TrailEntry> = Vec::new();
            trail.push((at, InnerErrorKind::Eof));
            assert(trail@ =~= seq![(at, InnerErrorKind::Eof)]);
            Err(trail)
        },
    }
}

fn instrument_head(input: &[u8], at: usize) -> (result: Result<
    ((u32, String, Option<u8>), usize),
    Vec<TrailEntry>,
>)
    requires
        at <= input.len(),
    ensures
        match result {
            Ok((head, next)) => spec_instrument_head(input@, at as int) == Ok::<
                ((u32, Seq<char>, Option<u8>), int),
                Seq<TrailEntry>,
            >(((head.0, head.1@, head.2), next as int)) && next <= input.len(),
            Err(trail) => spec_instrument_head(input@, at as int) == Err::<
                ((u32, Seq<char>, Option<u8>), int),
                Seq<TrailEntry>,
            >(trail@),
        },
{
    let (kind, at_name) = number_at(input, at)?;
    let (name, at_length) = short_string(input, at_name)?;
    let (length, at_enabled) = small_integer(input, at_length)?;
    let (enabled, next) = boolean(input, at_enabled)?;
    Ok(
        (
            (
                kind,
                name,
                if enabled {
                    Some(length)
                } else {
                    None
                },
            ),
            next,
        ),
    )
}

fn envelope(input: &[u8], at: usize) -> (result: Result<
    ((u8, EnvelopeDirection, u8), usize),
    Vec<TrailEntry>,
>)
    requires
        at <= input.len(),
    ensures
        outcome_of(result) == spec_envelope(input@, at as int),
        result matches Ok((_, next)) ==> next <= input.len(),
{
    let (initial_volume, at_dir) = byte_value(input, at)?;
    let (number, at_pace) = number_at(input, at_dir)?;
    let dir = match envelope_dir(number) {
        Ok(dir) => dir,
        Err(kind) => {
            return failure(at_dir, kind);
        },
    };
    let (envelope_pace, next) = byte_value(input, at_pace)?;
    Ok(((initial_volume, dir, envelope_pace), next))
}

fn sweep(input: &[u8], at: usize) -> (result: Result<
    ((u8, SweepDirection, u8), usize),
    Vec<TrailEntry>,
>)
    requires
        at <= input.len(),
    ensures
        outcome_of(result) == spec_sweep(input@, at as int),
        result matches Ok((_, next)) ==> next <= input.len(),
{
    let (sweep_time, at_dir) = small_number(input, at)?;
    let (number, at_shift) = number_at(input, at_dir)?;
    let dir = match sweep_dir(number) {
        Ok(dir) => dir,
        Err(kind) => {
            return failure(at_dir, kind);
        },
    };
    let (sweep_shift, next) = small_number(input, at_shift)?;
    Ok(((sweep_time, dir, sweep_shift), next))
}

fn duty(input: &[u8], at: usize) -> (result: Result<(DutyType, usize), Vec<TrailEntry>>)
    requires
        at <= input.len(),
    ensures
        outcome_of(result) == spec_duty(input@, at as int),
        result matches Ok((_, next)) ==> next <= input.len(),
{
    let (number, next) = byte_value(input, at)?;
    match duty_type(number) {
        Ok(duty) => Ok((duty, next)),
        Err(kind) => failure(at, kind),
    }
}

fn wave_and_noise(input: &[u8], at: usize) -> (result: Result<
    ((WaveOutputLevel, u8, LfsrWidth), usize),
    Vec<TrailEntry>,
>)
    requires
        at <= input.len(),
    ensures
        outcome_of(result) == spec_wave_and_noise(input@, at as int),
        result matches Ok((_, next)) ==> next <= input.len(),
{
    let (number, at_waveform) = number_at(input, at)?;
    let level = match output_level(number) {
        Ok(level) => level,
        Err(kind) => {
            return failure(at, kind);
        },
    };
    let (waveform, at_width) = small_number(input, at_waveform)?;
    let (number, next) = number_at(input, at_width)?;
    let width = match lfsr_width(number) {
        Ok(width) => width,
        Err(kind) => {
            return failure(at_width, kind);
        },
    };
    Ok(((level, waveform, width), next))
}

fn sound_fields(input: &[u8], at: usize) -> (result: Result<(SoundFields, usize), Vec<TrailEntry>>)
    requires
        at <= input.len(),
    ensures
        outcome_of(result) == spec_sound_fields(input@, at as int),
        result matches Ok((_, next)) ==> next <= input.len(),
{
    let (envelope, at_sweep) = envelope(input, at)?;
    let (sweep, at_duty) = sweep(input, at_sweep)?;
    let (duty, at_wave) = duty(input, at_duty)?;
    let (wave_and_noise, next) = wave_and_noise(input, at_wave)?;
    Ok(
        (
            SoundFields {
                initial_volume: envelope.0,
                envelope_dir: envelope.1,
                envelope_pace: envelope.2,
                sweep_time: sweep.0,
                sweep_dir: sweep.1,
                sweep_shift: sweep.2,
                duty,
                output_level: wave_and_noise.0,
                waveform: wave_and_noise.1,
                lfsr_width: wave_and_noise.2,
            },
            next,
        ),
    )
}

/// The subpattern as the file's grammar speaks of it.
pub open spec fn subpattern_model(subpattern: Option<[SubpatternCell; 32]>) -> Option<
    Seq<SubpatternCell>,
> {
    match subpattern {
        Some(subpattern) => Some(subpattern@),
        None => None,
    }
}

fn instrument_tail(input: &[u8], at: usize) -> (result: Result<
    (Option<[SubpatternCell; 32]>, usize),
    Vec<TrailEntry>,
>)
    requires
        at <= input.len(),
    ensures
        match result {
            Ok((subpattern, next)) => spec_instrument_tail(input@, at as int) == Ok::<
                (Option<Seq<SubpatternCell>>, int),
                Seq<TrailEntry>,
            >((subpattern_model(subpattern), next as int)) && next <= input.len(),
            Err(trail) => spec_instrument_tail(input@, at as int) == Err::<
                (Option<Seq<SubpatternCell>>, int),
                Seq<TrailEntry>,
            >(trail@),
        },
{
    let (enabled, at_subpattern) = boolean(input, at)?;
    let (subpattern, next) = subpattern_v2(input, at_subpattern)?;
    Ok(
        (
            if enabled {
                Some(subpattern)
            } else {
                None
            },
            next,
        ),
    )
}

fn instrument_kind(kind: u32, sound: SoundFields) -> (result: Result<InstrumentKind, InnerErrorKind>)
    ensures
        result == spec_instrument_kind(kind, sound),
{
    if kind == 0 {
        Ok(
            InstrumentKind::Square {
                initial_volume: sound.initial_volume,
                envelope_dir: sound.envelope_dir,
                envelope_pace: sound.envelope_pace,
                sweep_time: sound.sweep_time,
                sweep_dir: sound.sweep_dir,
                sweep_shift: sound.sweep_shift,
                duty: sound.duty,
            },
        )
    } else if kind == 1 {
        Ok(InstrumentKind::Wave { output_level: sound.output_level, wave_id: sound.waveform })
    } else if kind == 2 {
        Ok(
            InstrumentKind::Noise {
                initial_volume: sound.initial_volume,
                envelope_dir: sound.envelope_dir,
                envelope_pace: sound.envelope_pace,
                lfsr_width: sound.lfsr_width,
            },
        )
    } else {
        Err(InnerErrorKind::BadInstrType(kind))
    }
}

fn instrument_fields(input: &[u8], at: usize) -> (result: Result<(Instrument, usize), Vec<TrailEntry>>)
    requires
        at <= input.len(),
    ensures
        match result {
            Ok((instrument, next)) => spec_instrument_fields(input@, at as int) == Ok::<
                (InstrumentModel, int),
                Seq<TrailEntry>,
            >((instrument.model(), next as int)) && next <= input.len(),
            Err(trail) => spec_instrument_fields(input@, at as int) == Err::<
                (InstrumentModel, int),
                Seq<TrailEntry>,
            >(trail@),
        },
{
    let (head, at_sound) = instrument_head(input, at)?;
    let (sound, at_tail) = sound_fields(input, at_sound)?;
    let (subpattern, next) = instrument_tail(input, at_tail)?;
    match instrument_kind(head.0, sound) {
        Ok(kind) => Ok((Instrument { name: head.1, length: head.2, kind, subpattern }, next)),
        Err(kind) => failure(at, kind),
    }
}

fn instrument_v3(input: &[u8], at: usize) -> (result: Result<(Instrument, usize), Vec<TrailEntry>>)
    requires
        at <= input.len(),
    ensures
        match result {
            Ok((instrument, next)) => spec_instrument(input@, at as int) == Ok::<
                (InstrumentModel, int),
                Seq<TrailEntry>,
            >((instrument.model(), next as int)) && next <= input.len(),
            Err(trail) => spec_instrument(input@, at as int) == Err::<
                (InstrumentModel, int),
                Seq<TrailEntry>,
            >(trail@),
        },
{
    proof {
        reveal(spec_instrument);
    }
    match instrument_fields(input, at) {
        Ok(read) => Ok(read),
        Err(trail) => Err(with_context(trail, at, ParseContext::InstrumentV3)),
    }
}

/// Takes the fifteen instruments out of a list into a bank.
fn into_bank(instruments: Vec<Instrument>) -> (bank: [Instrument; 15])
    requires
        instruments.len() == 15,
    ensures
        forall|i: int| 0 <= i < 15 ==> #[trigger] bank[i] == instruments[i],
{
    let mut instruments = instruments;
    let i14 = instruments.pop().unwrap();
    let i13 = instruments.pop().unwrap();
    let i12 = instruments.pop().unwrap();
    let i11 = instruments.pop().unwrap();
    let i10 = instruments.pop().unwrap();
    let i9 = instruments.pop().unwrap();
    let i8 = instruments.pop().unwrap();
    let i7 = instruments.pop().unwrap();
    let i6 = instruments.pop().unwrap();
    let i5 = instruments.pop().unwrap();
    let i4 = instruments.pop().unwrap();
    let i3 = instruments.pop().unwrap();
    let i2 = instruments.pop().unwrap();
    let i1 = instruments.pop().unwrap();
    let i0 = instruments.pop().unwrap();
    [i0, i1, i2, i3, i4, i5, i6, i7, i8, i9, i10, i11, i12, i13, i14]
}

/// Takes the sixteen routines out of a list into a bank.
fn into_routines(routines: Vec<String>) -> (bank: [String; 16])
    requires
        routines.len() == 16,
    ensures
        forall|i: int| 0 <= i < 16 ==> #[trigger] bank[i] == routines[i],
{
    let mut routines = routines;
    let r15 = routines.pop().unwrap();
    let r14 = routines.pop().unwrap();
    let r13 = routines.pop().unwrap();
    let r12 = routines.pop().unwrap();
    let r11 = routines.pop().unwrap();
    let r10 = routines.pop().unwrap();
    let r9 = routines.pop().unwrap();
    let r8 = routines.pop().unwrap();
    let r7 = routines.pop().unwrap();
    let r6 = routines.pop().unwrap();
    let r5 = routines.pop().unwrap();
    let r4 = routines.pop().unwrap();
    let r3 = routines.pop().unwrap();
    let r2 = routines.pop().unwrap();
    let r1 = routines.pop().unwrap();
    let r0 = routines.pop().unwrap();
    [r0, r1, r2, r3, r4, r5, r6, r7, r8, r9, r10, r11, r12, r13, r14, r15]
}

fn instr_bank_v3(input: &[u8], at: usize) -> (result: Result<([Instrument; 15], usize), Vec<TrailEntry>>)
    requires
        at <= input.len(),
    ensures
        match result {
            Ok((bank, next)) => spec_instr_bank(input@, at as int) == Ok::<
                (Seq<InstrumentModel>, int),
                Seq<TrailEntry>,
            >((bank_model(bank), next as int)) && next <= input.len(),
            Err(trail) => spec_instr_bank(input@, at as int) == Err::<
                (Seq<InstrumentModel>, int),
                Seq<TrailEntry>,
            >(trail@),
        },
{
    let mut instruments: Vec<Instrument> = Vec::new();
    let mut next = at;
    let mut i: usize = 0;
    let ghost mut read: Seq<InstrumentModel> = Seq::empty();
    while i < 15
        invariant
            i <= 15,
            instruments.len() == i,
            next <= input.len(),
            read.len() == i,
            forall|k: int| 0 <= k < i ==> #[trigger] read[k] == instruments[k].model(),
            spec_instruments(input@, at as int, at as int, 15, Seq::empty()) == spec_instruments(
                input@,
                at as int,
                next as int,
                (15 - i) as nat,
                read,
            ),
        decreases 15 - i,
    {
        match instrument_v3(input, next) {
            Ok((instrument, after)) => {
                proof {
                    read = read.push(instrument.model());
                }
                instruments.push(instrument);
                next = after;
            },
            Err(trail) => {
                return Err(with_context(with_count(trail, at), at, ParseContext::InstrBankV3));
            },
        }
        i += 1;
    }
    let ghost list = instruments@;
    let bank = into_bank(instruments);
    assert(bank_model(bank) =~= read) by {
        assert forall|k: int| 0 <= k < 15 implies bank_model(bank)[k] == read[k] by {
            assert(bank[k] == list[k]);
        }
    }
    Ok((bank, next))
}

fn instr_collection_v3(input: &[u8], at: usize) -> (result: Result<
    (InstrCollection, usize),
    Vec<TrailEntry>,
>)
    requires
        at <= input.len(),
    ensures
        match result {
            Ok((instruments, next)) => spec_instr_collection(input@, at as int) == Ok::<
                ((Seq<InstrumentModel>, Seq<InstrumentModel>, Seq<InstrumentModel>), int),
                Seq<TrailEntry>,
            >(
                (
                    (
                        bank_model(instruments.duty),
                        bank_model(instruments.wave),
                        bank_model(instruments.noise),
                    ),
                    next as int,
                ),
            ) && next <= input.len(),
            Err(trail) => spec_instr_collection(input@, at as int) == Err::<
                ((Seq<InstrumentModel>, Seq<InstrumentModel>, Seq<InstrumentModel>), int),
                Seq<TrailEntry>,
            >(trail@),
        },
{
    let (duty, at_wave) = match instr_bank_v3(input, at) {
        Ok(read) => read,
        Err(trail) => {
            return Err(with_context(trail, at, ParseContext::InstrCollectionV3));
        },
    };
    let (wave, at_noise) = match instr_bank_v3(input, at_wave) {
        Ok(read) => read,
        Err(trail) => {
            return Err(with_context(trail, at, ParseContext::InstrCollectionV3));
        },
    };
    let (noise, next) = match instr_bank_v3(input, at_noise) {
        Ok(read) => read,
        Err(trail) => {
            return Err(with_context(trail, at, ParseContext::InstrCollectionV3));
        },
    };
    Ok((InstrCollection { duty, wave, noise }, next))
}

/// The place of the first of the samples from `from` on that is no sample of four bits; the
/// number of samples where each is one.
pub open spec fn first_bad_sample(raw: Seq<u8>, from: int) -> int
    decreases raw.len() - from,
{
    if from >= raw.len() {
        raw.len() as int
    } else if raw[from] & 0xF0 != 0 {
        from
    } else {
        first_bad_sample(raw, from + 1)
    }
}

/// The samples of a wave, two to a byte, the first of the two in the high half.
pub open spec fn packed_wave(raw: Seq<u8>) -> Seq<u8> {
    Seq::new(16, |i: int| ((raw[2 * i] << 4) + raw[2 * i + 1]) as u8)
}

/// A wave: 32 samples, each in a byte of its own.
pub open spec fn spec_wave(bytes: Seq<u8>, at: int) -> Parsed<Seq<u8>> {
    in_context(
        match bytes_at(bytes, at, 32) {
            None => fail(at, InnerErrorKind::Eof),
            Some(raw) => if first_bad_sample(raw, 0) < 32 {
                fail(
                    at + first_bad_sample(raw, 0),
                    InnerErrorKind::BadWave(raw[first_bad_sample(raw, 0)]),
                )
            } else {
                Ok((packed_wave(raw), at + 32))
            },
        },
        at,
        ParseContext::WaveV2,
    )
}

/// The waves of the bank that follow `waves`: `remaining` more, read from `at` on.
pub open spec fn spec_waves(
    bytes: Seq<u8>,
    start: int,
    at: int,
    remaining: nat,
    waves: Seq<Seq<u8>>,
) -> Parsed<Seq<Seq<u8>>>
    decreases remaining,
{
    if remaining == 0 {
        Ok((waves, at))
    } else {
        match spec_wave(bytes, at) {
            Ok((wave, next)) => spec_waves(
                bytes,
                start,
                next,
                (remaining - 1) as nat,
                waves.push(wave),
            ),
            Err(trail) => Err(miscounted(trail, start)),
        }
    }
}

/// The bank of waves: 16 of them.
pub open spec fn spec_wave_bank(bytes: Seq<u8>, at: int) -> Parsed<Seq<Seq<u8>>> {
    in_context(spec_waves(bytes, at, at, 16, Seq::empty()), at, ParseContext::WaveBankV2)
}

fn wave_v2(input: &[u8], at: usize) -> (result: Result<([u8; 16], usize), Vec<TrailEntry>>)
    requires
        at <= input.len(),
    ensures
        match result {
            Ok((wave, next)) => spec_wave(input@, at as int) == Ok::<
                (Seq<u8>, int),
                Seq<TrailEntry>,
            >((wave@, next as int)) && next <= input.len(),
            Err(trail) => spec_wave(input@, at as int) == Err::<(Seq<u8>, int), Seq<TrailEntry>>(
                trail@,
            ),
        },
{
    let raw = match take(input, at, 32) {
        Some(raw) => raw,
        None => {
            let mut trail: Vec<TrailEntry> = Vec::new();
            trail.push((at, InnerErrorKind::Eof));
            assert(trail@ =~= seq![(at, InnerErrorKind::Eof)]);
            return Err(with_context(trail, at, ParseContext::WaveV2));
        },
    };
    let mut wave: [u8; 16] = [0u8; 16];
    let mut i: usize = 0;
    while i < 16
        invariant
            i <= 16,
            raw@.len() == 32,
            at + 32 <= input.len(),
            bytes_at(input@, at as int, 32) == Some(raw@),
            first_bad_sample(raw@, 0) == first_bad_sample(raw@, 2 * i),
            forall|k: int| 0 <= k < i ==> #[trigger] wave@[k] == packed_wave(raw@)[k],
        decreases 16 - i,
    {
        proof {
            reveal_with_fuel(first_bad_sample, 3);
        }
        let high = raw[2 * i];
        if high & 0xF0 != 0 {
            let mut trail: Vec<TrailEntry> = Vec::new();
            trail.push(((at + 2 * i) as usize, InnerErrorKind::BadWave(high)));
            assert(trail@ =~= seq![((at + 2 * i) as usize, InnerErrorKind::BadWave(high))]);
            return Err(with_context(trail, at, ParseContext::WaveV2));
        }
        let low = raw[2 * i + 1];
        if low & 0xF0 != 0 {
            let mut trail: Vec<TrailEntry> = Vec::new();
            trail.push(((at + 2 * i + 1) as usize, InnerErrorKind::BadWave(low)));
            assert(trail@ =~= seq![((at + 2 * i + 1) as usize, InnerErrorKind::BadWave(low))]);
            return Err(with_context(trail, at, ParseContext::WaveV2));
        }
        assert((high << 4) + low <= 255) by (bit_vector)
            requires
                high & 0xF0 == 0,
                low & 0xF0 == 0,
        ;
        wave[i] = (high << 4) + low;
        i += 1;
    }
    assert(wave@ =~= packed_wave(raw@));
    Ok((wave, at + 32))
}

fn wave_bank_v2(input: &[u8], at: usize) -> (result: Result<([[u8; 16]; 16], usize), Vec<TrailEntry>>)
    requires
        at <= input.len(),
    ensures
        match result {
            Ok((waves, next)) => spec_wave_bank(input@, at as int) == Ok::<
                (Seq<Seq<u8>>, int),
                Seq<TrailEntry>,
            >((Seq::new(16, |i: int| waves[i]@), next as int)) && next <= input.len(),
            Err(trail) => spec_wave_bank(input@, at as int) == Err::<
                (Seq<Seq<u8>>, int),
                Seq<TrailEntry>,
            >(trail@),
        },
{
    let mut waves: [[u8; 16]; 16] = [[0u8; 16]; 16];
    let mut next = at;
    let mut i: usize = 0;
    let ghost mut read: Seq<Seq<u8>> = Seq::empty();
    while i < 16
        invariant
            i <= 16,
            at <= next <= input.len(),
            read.len() == i,
            forall|k: int| 0 <= k < i ==> #[trigger] read[k] == waves[k]@,
            spec_waves(input@, at as int, at as int, 16, Seq::empty()) == spec_waves(
                input@,
                at as int,
                next as int,
                (16 - i) as nat,
                read,
            ),
        decreases 16 - i,
    {
        match wave_v2(input, next) {
            Ok((wave, after)) => {
                waves[i] = wave;
                next = after;
                proof {
                    read = read.push(wave@);
                }
            },
            Err(trail) => {
                return Err(with_context(with_count(trail, at), at, ParseContext::WaveBankV2));
            },
        }
        i += 1;
    }
    assert(read =~= Seq::new(16, |i: int| waves[i]@));
    Ok((waves, next))
}

/// A pattern with nothing in it.
pub open spec fn blank_pattern() -> Seq<PatternCell> {
    Seq::new(
        64,
        |r: int|
            PatternCell {
                note: Note::NoNote,
                instrument: 0,
                effect_code: EffectId::Arpeggio,
                effect_param: 0,
            },
    )
}

/// The patterns with `cells` as pattern `id`, and with blank patterns for the ids up to `id`
/// that they lack.
pub open spec fn with_pattern(patterns: Seq<Seq<PatternCell>>, id: int, cells: Seq<PatternCell>) -> Seq<
    Seq<PatternCell>,
> {
    Seq::new(
        if id < patterns.len() {
            patterns.len()
        } else {
            (id + 1) as nat
        },
        |i: int|
            if i == id {
                cells
            } else if i < patterns.len() {
                patterns[i]
            } else {
                blank_pattern()
            },
    )
}

/// An entry of the pattern map: the number of a pattern, and the pattern.
pub open spec fn spec_pattern_entry(bytes: Seq<u8>, at: int) -> Parsed<(u32, Seq<PatternCell>)> {
    in_context(
        match spec_integer(bytes, at) {
            Err(trail) => Err(trail),
            Ok((id, at_cells)) => match spec_pattern(bytes, at_cells) {
                Err(trail) => Err(trail),
                Ok((cells, next)) => Ok(((id, cells), next)),
            },
        },
        at,
        ParseContext::PatternMapEntryV2,
    )
}

/// The patterns after `remaining` more entries of the pattern map, read from `at` on.
pub open spec fn spec_pattern_entries(
    bytes: Seq<u8>,
    at: int,
    remaining: nat,
    patterns: Seq<Seq<PatternCell>>,
) -> Parsed<Seq<Seq<PatternCell>>>
    decreases remaining,
{
    if remaining == 0 {
        Ok((patterns, at))
    } else {
        match spec_pattern_entry(bytes, at) {
            Err(trail) => Err(trail),
            Ok(((id, cells), next)) => if id >= usize::MAX {
                fail(at, InnerErrorKind::NumOutOfRange)
            } else {
                spec_pattern_entries(
                    bytes,
                    next,
                    (remaining - 1) as nat,
                    with_pattern(patterns, id as int, cells),
                )
            },
        }
    }
}

/// The pattern map: the number of its entries, and the entries.
pub open spec fn spec_pattern_map(bytes: Seq<u8>, at: int) -> Parsed<Seq<Seq<PatternCell>>> {
    in_context(
        match spec_integer(bytes, at) {
            Err(trail) => Err(trail),
            Ok((nb_entries, next)) => spec_pattern_entries(
                bytes,
                next,
                nb_entries as nat,
                Seq::empty(),
            ),
        },
        at,
        ParseContext::PatternMapV2,
    )
}

fn pattern_map_entry_v2(input: &[u8], at: usize) -> (result: Result<
    ((u32, [PatternCell; 64]), usize),
    Vec<TrailEntry>,
>)
    requires
        at <= input.len(),
    ensures
        match result {
            Ok((entry, next)) => spec_pattern_entry(input@, at as int) == Ok::<
                ((u32, Seq<PatternCell>), int),
                Seq<TrailEntry>,
            >(((entry.0, entry.1@), next as int)) && next <= input.len(),
            Err(trail) => spec_pattern_entry(input@, at as int) == Err::<
                ((u32, Seq<PatternCell>), int),
                Seq<TrailEntry>,
            >(trail@),
        },
{
    let (id, at_cells) = match integer(input, at) {
        Ok(read) => read,
        Err(trail) => {
            return Err(with_context(trail, at, ParseContext::PatternMapEntryV2));
        },
    };
    match pattern_v2(input, at_cells) {
        Ok((cells, next)) => Ok(((id, cells), next)),
        Err(trail) => Err(with_context(trail, at, ParseContext::PatternMapEntryV2)),
    }
}

/// The patterns of a list as the file's grammar speaks of them.
pub open spec fn patterns_model(patterns: Seq<[PatternCell; 64]>) -> Seq<Seq<PatternCell>> {
    Seq::new(patterns.len(), |i: int| patterns[i]@)
}

/// Puts `cells` into the list as pattern `id`, after blank patterns where the list is short.
fn put_pattern(patterns: &mut Vec<[PatternCell; 64]>, id: usize, cells: [PatternCell; 64])
    requires
        id < usize::MAX,
    ensures
        patterns_model(final(patterns)@) == with_pattern(
            patterns_model(old(patterns)@),
            id as int,
            cells@,
        ),
{
    let blank = PatternCell::default();
    while patterns.len() <= id
        invariant
            id < usize::MAX,
            old(patterns).len() <= patterns.len(),
            patterns.len() <= id + 1 || patterns.len() == old(patterns).len(),
            forall|i: int| 0 <= i < old(patterns).len() ==> #[trigger] patterns[i] == old(patterns)[i],
            forall|i: int|
                old(patterns).len() <= i < patterns.len() ==> (#[trigger] patterns[i])@
                    == blank_pattern(),
            blank == (PatternCell {
                note: Note::NoNote,
                instrument: 0,
                effect_code: EffectId::Arpeggio,
                effect_param: 0,
            }),
        decreases id + 1 - patterns.len(),
    {
        let filler: [PatternCell; 64] = [blank; 64];
        assert(filler@ =~= blank_pattern());
        patterns.push(filler);
    }
    patterns.set(id, cells);
    assert(patterns_model(patterns@) =~= with_pattern(
        patterns_model(old(patterns)@),
        id as int,
        cells@,
    ));
}

fn pattern_map_v2(input: &[u8], at: usize) -> (result: Result<
    (Vec<[PatternCell; 64]>, usize),
    Vec<TrailEntry>,
>)
    requires
        at <= input.len(),
    ensures
        match result {
            Ok((patterns, next)) => spec_pattern_map(input@, at as int) == Ok::<
                (Seq<Seq<PatternCell>>, int),
                Seq<TrailEntry>,
            >((patterns_model(patterns@), next as int)) && next <= input.len(),
            Err(trail) => spec_pattern_map(input@, at as int) == Err::<
                (Seq<Seq<PatternCell>>, int),
                Seq<TrailEntry>,
            >(trail@),
        },
{
    let (nb_entries, at_entries) = match integer(input, at) {
        Ok(read) => read,
        Err(trail) => {
            return Err(with_context(trail, at, ParseContext::PatternMapV2));
        },
    };
    let mut patterns: Vec<[PatternCell; 64]> = Vec::new();
    let mut next = at_entries;
    let mut done: u32 = 0;
    assert(patterns_model(patterns@) =~= Seq::<Seq<PatternCell>>::empty());
    while done < nb_entries
        invariant
            done <= nb_entries,
            next <= input.len(),
            spec_integer(input@, at as int) == Ok::<(u32, int), Seq<TrailEntry>>(
                (nb_entries, at_entries as int),
            ),
            spec_pattern_entries(input@, at_entries as int, nb_entries as nat, Seq::empty())
                == spec_pattern_entries(
                input@,
                next as int,
                (nb_entries - done) as nat,
                patterns_model(patterns@),
            ),
        decreases nb_entries - done,
    {
        match pattern_map_entry_v2(input, next) {
            Ok(((id, cells), after)) => {
                if id as u64 >= usize::MAX as u64 {
                    let mut trail: Vec<TrailEntry> = Vec::new();
                    trail.push((next, InnerErrorKind::NumOutOfRange));
                    assert(trail@ =~= seq![(next, InnerErrorKind::NumOutOfRange)]);
                    return Err(with_context(trail, at, ParseContext::PatternMapV2));
                }
                put_pattern(&mut patterns, id as usize, cells);
                next = after;
            },
            Err(trail) => {
                return Err(with_context(trail, at, ParseContext::PatternMapV2));
            },
        }
        done += 1;
    }
    Ok((patterns, next))
}

/// The entries of a column of the order matrix that follow `entries`: `remaining` more, read
/// from `at` on. The entries start at `start`.
pub open spec fn spec_order_entries(
    bytes: Seq<u8>,
    start: int,
    at: int,
    remaining: nat,
    entries: Seq<usize>,
) -> Parsed<Seq<usize>>
    decreases remaining,
{
    if remaining == 0 {
        Ok((entries, at))
    } else {
        match spec_integer(bytes, at) {
            Ok((entry, next)) => spec_order_entries(
                bytes,
                start,
                next,
                (remaining - 1) as nat,
                entries.push(entry as usize),
            ),
            Err(trail) => Err(miscounted(trail, start)),
        }
    }
}

/// A column of the order matrix: the number of its entries, and the entries.
pub open spec fn spec_order_column(bytes: Seq<u8>, at: int) -> Parsed<Seq<usize>> {
    in_context(
        match spec_integer(bytes, at) {
            Err(trail) => Err(trail),
            Ok((nb_entries, next)) => spec_order_entries(
                bytes,
                next,
                next,
                nb_entries as nat,
                Seq::empty(),
            ),
        },
        at,
        ParseContext::OrderColumn,
    )
}

/// The columns of the order matrix that follow `columns`: `remaining` more, read from `at` on.
pub open spec fn spec_order_columns(
    bytes: Seq<u8>,
    start: int,
    at: int,
    remaining: nat,
    columns: Seq<Seq<usize>>,
) -> Parsed<Seq<Seq<usize>>>
    decreases remaining,
{
    if remaining == 0 {
        Ok((columns, at))
    } else {
        match spec_order_column(bytes, at) {
            Ok((column, next)) => spec_order_columns(
                bytes,
                start,
                next,
                (remaining - 1) as nat,
                columns.push(column),
            ),
            Err(trail) => Err(miscounted(trail, start)),
        }
    }
}

/// The rows of the order matrix that four columns of one length hold: all but the last, which
/// the file holds and no song uses.
pub open spec fn order_rows(columns: Seq<Seq<usize>>) -> Seq<Seq<usize>> {
    Seq::new(
        (columns[0].len() - 1) as nat,
        |i: int| seq![columns[0][i], columns[1][i], columns[2][i], columns[3][i]],
    )
}

/// The order matrix: four columns, one for each channel, of one length and not empty.
pub open spec fn spec_order_matrix(bytes: Seq<u8>, at: int) -> Parsed<Seq<Seq<usize>>> {
    in_context(
        match spec_order_columns(bytes, at, at, 4, Seq::empty()) {
            Err(trail) => Err(trail),
            Ok((columns, next)) => if columns[0].len() == columns[1].len() && columns[1].len()
                == columns[2].len() && columns[2].len() == columns[3].len() && columns[0].len()
                >= 1 {
                Ok((order_rows(columns), next))
            } else {
                fail(
                    next,
                    InnerErrorKind::OrderNotMatrix(
                        columns[0].len() as usize,
                        columns[1].len() as usize,
                        columns[2].len() as usize,
                        columns[3].len() as usize,
                    ),
                )
            },
        },
        at,
        ParseContext::OrderMatrix,
    )
}

fn order_column(input: &[u8], at: usize) -> (result: Result<(Vec<usize>, usize), Vec<TrailEntry>>)
    requires
        at <= input.len(),
    ensures
        match result {
            Ok((column, next)) => spec_order_column(input@, at as int) == Ok::<
                (Seq<usize>, int),
                Seq<TrailEntry>,
            >((column@, next as int)) && next <= input.len(),
            Err(trail) => spec_order_column(input@, at as int) == Err::<
                (Seq<usize>, int),
                Seq<TrailEntry>,
            >(trail@),
        },
{
    let (nb_entries, at_entries) = match integer(input, at) {
        Ok(read) => read,
        Err(trail) => {
            return Err(with_context(trail, at, ParseContext::OrderColumn));
        },
    };
    let mut column: Vec<usize> = Vec::new();
    let mut next = at_entries;
    let mut done: u32 = 0;
    while done < nb_entries
        invariant
            done <= nb_entries,
            next <= input.len(),
            spec_integer(input@, at as int) == Ok::<(u32, int), Seq<TrailEntry>>(
                (nb_entries, at_entries as int),
            ),
            spec_order_entries(
                input@,
                at_entries as int,
                at_entries as int,
                nb_entries as nat,
                Seq::empty(),
            ) == spec_order_entries(
                input@,
                at_entries as int,
                next as int,
                (nb_entries - done) as nat,
                column@,
            ),
        decreases nb_entries - done,
    {
        match integer(input, next) {
            Ok((entry, after)) => {
                column.push(entry as usize);
                next = after;
            },
            Err(trail) => {
                return Err(
                    with_context(with_count(trail, at_entries), at, ParseContext::OrderColumn),
                );
            },
        }
        done += 1;
    }
    Ok((column, next))
}

/// The rows of a list as the file's grammar speaks of them.
pub open spec fn rows_model(rows: Seq<[usize; 4]>) -> Seq<Seq<usize>> {
    Seq::new(rows.len(), |i: int| rows[i]@)
}

fn order_matrix(input: &[u8], at: usize) -> (result: Result<(Vec<[usize; 4]>, usize), Vec<TrailEntry>>)
    requires
        at <= input.len(),
    ensures
        match result {
            Ok((rows, next)) => spec_order_matrix(input@, at as int) == Ok::<
                (Seq<Seq<usize>>, int),
                Seq<TrailEntry>,
            >((rows_model(rows@), next as int)) && next <= input.len(),
            Err(trail) => spec_order_matrix(input@, at as int) == Err::<
                (Seq<Seq<usize>>, int),
                Seq<TrailEntry>,
            >(trail@),
        },
{
    proof {
        reveal_with_fuel(spec_order_columns, 5);
    }
    let (ch1, at2) = match order_column(input, at) {
        Ok(read) => read,
        Err(trail) => {
            return Err(with_context(with_count(trail, at), at, ParseContext::OrderMatrix));
        },
    };
    let (ch2, at3) = match order_column(input, at2) {
        Ok(read) => read,
        Err(trail) => {
            return Err(with_context(with_count(trail, at), at, ParseContext::OrderMatrix));
        },
    };
    let (ch3, at4) = match order_column(input, at3) {
        Ok(read) => read,
        Err(trail) => {
            return Err(with_context(with_count(trail, at), at, ParseContext::OrderMatrix));
        },
    };
    let (ch4, next) = match order_column(input, at4) {
        Ok(read) => read,
        Err(trail) => {
            return Err(with_context(with_count(trail, at), at, ParseContext::OrderMatrix));
        },
    };
    let ghost columns = Seq::<Seq<usize>>::empty().push(ch1@).push(ch2@).push(ch3@).push(ch4@);
    let len = ch1.len();
    if !(len == ch2.len() && ch2.len() == ch3.len() && ch3.len() == ch4.len() && len >= 1) {
        let mut trail: Vec<TrailEntry> = Vec::new();
        trail.push(
            (next, InnerErrorKind::OrderNotMatrix(ch1.len(), ch2.len(), ch3.len(), ch4.len())),
        );
        assert(trail@ =~= seq![
            (next, InnerErrorKind::OrderNotMatrix(ch1.len(), ch2.len(), ch3.len(), ch4.len())),
        ]);
        return Err(with_context(trail, at, ParseContext::OrderMatrix));
    }
    // The file holds one row more than the song has.
    let mut rows: Vec<[usize; 4]> = Vec::new();
    let mut i: usize = 0;
    while i < len - 1
        invariant
            1 <= len,
            len == ch1.len() && len == ch2.len() && len == ch3.len() && len == ch4.len(),
            i <= len - 1,
            rows.len() == i,
            columns == Seq::<Seq<usize>>::empty().push(ch1@).push(ch2@).push(ch3@).push(ch4@),
            forall|k: int| 0 <= k < i ==> (#[trigger] rows[k])@ == order_rows(columns)[k],
        decreases len - 1 - i,
    {
        let row: [usize; 4] = [ch1[i], ch2[i], ch3[i], ch4[i]];
        assert(row@ =~= seq![ch1@[i as int], ch2@[i as int], ch3@[i as int], ch4@[i as int]]);
        rows.push(row);
        i += 1;
    }
    assert(rows_model(rows@) =~= order_rows(columns));
    Ok((rows, next))
}

/// A routine: a long string.
pub open spec fn spec_routine(bytes: Seq<u8>, at: int) -> Parsed<Seq<char>> {
    in_context(spec_ansi_string(bytes, at), at, ParseContext::Routine)
}

/// The routines that follow `routines`: `remaining` more, read from `at` on.
pub open spec fn spec_routines(
    bytes: Seq<u8>,
    start: int,
    at: int,
    remaining: nat,
    routines: Seq<Seq<char>>,
) -> Parsed<Seq<Seq<char>>>
    decreases remaining,
{
    if remaining == 0 {
        Ok((routines, at))
    } else {
        match spec_routine(bytes, at) {
            Ok((routine, next)) => spec_routines(
                bytes,
                start,
                next,
                (remaining - 1) as nat,
                routines.push(routine),
            ),
            Err(trail) => Err(miscounted(trail, start)),
        }
    }
}

/// The bank of routines: 16 of them.
pub open spec fn spec_routine_bank(bytes: Seq<u8>, at: int) -> Parsed<Seq<Seq<char>>> {
    in_context(spec_routines(bytes, at, at, 16, Seq::empty()), at, ParseContext::RoutineBank)
}

fn routine_bank(input: &[u8], at: usize) -> (result: Result<([String; 16], usize), Vec<TrailEntry>>)
    requires
        at <= input.len(),
    ensures
        match result {
            Ok((routines, next)) => spec_routine_bank(input@, at as int) == Ok::<
                (Seq<Seq<char>>, int),
                Seq<TrailEntry>,
            >((Seq::new(16, |i: int| routines[i]@), next as int)) && next <= input.len(),
            Err(trail) => spec_routine_bank(input@, at as int) == Err::<
                (Seq<Seq<char>>, int),
                Seq<TrailEntry>,
            >(trail@),
        },
{
    let mut routines: Vec<String> = Vec::new();
    let mut next = at;
    let mut i: usize = 0;
    let ghost mut read: Seq<Seq<char>> = Seq::empty();
    while i < 16
        invariant
            i <= 16,
            routines.len() == i,
            next <= input.len(),
            read.len() == i,
            forall|k: int| 0 <= k < i ==> #[trigger] read[k] == routines[k]@,
            spec_routines(input@, at as int, at as int, 16, Seq::empty()) == spec_routines(
                input@,
                at as int,
                next as int,
                (16 - i) as nat,
                read,
            ),
        decreases 16 - i,
    {
        match ansi_string(input, next) {
            Ok((routine, after)) => {
                proof {
                    read = read.push(routine@);
                }
                routines.push(routine);
                next = after;
            },
            Err(trail) => {
                return Err(
                    with_context(
                        with_count(with_context(trail, next, ParseContext::Routine), at),
                        at,
                        ParseContext::RoutineBank,
                    ),
                );
            },
        }
        i += 1;
    }
    let ghost list = routines@;
    let bank = into_routines(routines);
    assert(Seq::new(16, |i: int| bank[i]@) =~= read) by {
        assert forall|k: int| 0 <= k < 16 implies Seq::new(16, |i: int| bank[i]@)[k] == read[k] by {
            assert(bank[k] == list[k]);
        }
    }
    Ok((bank, next))
}

/// The three texts at the head of a song: name, artist and comment.
pub open spec fn spec_song_texts(bytes: Seq<u8>, at: int) -> Parsed<
    (Seq<char>, Seq<char>, Seq<char>),
> {
    match spec_short_string(bytes, at) {
        Err(trail) => Err(trail),
        Ok((name, at_artist)) => match spec_short_string(bytes, at_artist) {
            Err(trail) => Err(trail),
            Ok((artist, at_comment)) => match spec_short_string(bytes, at_comment) {
                Err(trail) => Err(trail),
                Ok((comment, next)) => Ok(((name, artist, comment), next)),
            },
        },
    }
}

/// The tempo of a song: the ticks to a row, and the divider of the timer if the song plays by
/// the timer.
pub open spec fn spec_tempo(bytes: Seq<u8>, at: int) -> Parsed<(u8, Option<u8>)> {
    match spec_small_integer(bytes, at) {
        Err(trail) => Err(trail),
        Ok((ticks_per_row, at_enabled)) => match spec_boolean(bytes, at_enabled) {
            Err(trail) => Err(trail),
            Ok((timer_enabled, at_divider)) => match spec_integer(bytes, at_divider) {
                Err(trail) => Err(trail),
                Ok((timer_divider, next)) => if timer_divider > 255 {
                    fail(at_divider, InnerErrorKind::BadTimerDivider(timer_divider))
                } else {
                    Ok(
                        (
                            (
                                ticks_per_row,
                                if timer_enabled {
                                    Some(timer_divider as u8)
                                } else {
                                    None
                                },
                            ),
                            next,
                        ),
                    )
                },
            },
        },
    }
}

/// The instruments and the waves of a song.
pub open spec fn spec_sounds(bytes: Seq<u8>, at: int) -> Parsed<
    ((Seq<InstrumentModel>, Seq<InstrumentModel>, Seq<InstrumentModel>), Seq<Seq<u8>>),
> {
    match spec_instr_collection(bytes, at) {
        Err(trail) => Err(trail),
        Ok((instruments, at_waves)) => match spec_wave_bank(bytes, at_waves) {
            Err(trail) => Err(trail),
            Ok((waves, next)) => Ok(((instruments, waves), next)),
        },
    }
}

/// The patterns, the order matrix and the routines of a song.
pub open spec fn spec_tracks(bytes: Seq<u8>, at: int) -> Parsed<
    (Seq<Seq<PatternCell>>, Seq<Seq<usize>>, Seq<Seq<char>>),
> {
    match spec_pattern_map(bytes, at) {
        Err(trail) => Err(trail),
        Ok((patterns, at_order)) => match spec_order_matrix(bytes, at_order) {
            Err(trail) => Err(trail),
            Ok((order_matrix, at_routines)) => match spec_routine_bank(bytes, at_routines) {
                Err(trail) => Err(trail),
                Ok((routines, next)) => Ok(((patterns, order_matrix, routines), next)),
            },
        },
    }
}

/// The fields of a song.
pub open spec fn spec_song_fields(bytes: Seq<u8>, at: int) -> Parsed<SongModel> {
    match spec_song_texts(bytes, at) {
        Err(trail) => Err(trail),
        Ok((texts, at_sounds)) => match spec_sounds(bytes, at_sounds) {
            Err(trail) => Err(trail),
            Ok((sounds, at_tempo)) => match spec_tempo(bytes, at_tempo) {
                Err(trail) => Err(trail),
                Ok((tempo, at_tracks)) => match spec_tracks(bytes, at_tracks) {
                    Err(trail) => Err(trail),
                    Ok((tracks, next)) => Ok(
                        (
                            SongModel {
                                name: texts.0,
                                artist: texts.1,
                                comment: texts.2,
                                duty: sounds.0.0,
                                wave: sounds.0.1,
                                noise: sounds.0.2,
                                waves: sounds.1,
                                ticks_per_row: tempo.0,
                                timer_divider: tempo.1,
                                patterns: tracks.0,
                                order_matrix: tracks.1,
                                routines: tracks.2,
                            },
                            next,
                        ),
                    ),
                },
            },
        },
    }
}

/// A song of version 6.
pub open spec fn spec_song_v6(bytes: Seq<u8>, at: int) -> Parsed<SongModel> {
    in_context(spec_song_fields(bytes, at), at, ParseContext::SongV6)
}

/// Why bytes are no song, as the file's grammar speaks of it.
pub enum ParseFailure {
    NotUge,
    UnsupportedVersion(u32),
    TooNew(u32),
    BadData(Seq<TrailEntry>),
}

impl ParseError {
    pub open spec fn model(&self) -> ParseFailure {
        match self.0 {
            ParseErrorKind::NotUge => ParseFailure::NotUge,
            ParseErrorKind::UnsupportedVersion(version) => ParseFailure::UnsupportedVersion(
                version,
            ),
            ParseErrorKind::TooNew(version) => ParseFailure::TooNew(version),
            ParseErrorKind::BadData { trail } => ParseFailure::BadData(trail@),
        }
    }
}

/// The song that the bytes of a project file hold: after the number of the version, which has
/// to be 6, a song of that version, and nothing after it.
pub open spec fn spec_parse_song(bytes: Seq<u8>) -> Result<SongModel, ParseFailure> {
    match le_u32_at(bytes, 0) {
        None => Err(ParseFailure::NotUge),
        Some(version) => if version <= 5 {
            Err(ParseFailure::UnsupportedVersion(version))
        } else if version >= 7 {
            Err(ParseFailure::TooNew(version))
        } else {
            match spec_song_v6(bytes, 4) {
                Err(trail) => Err(ParseFailure::BadData(trail)),
                Ok((song, end)) => if end == bytes.len() {
                    Ok(song)
                } else {
                    Err(ParseFailure::BadData(seq![(end as usize, InnerErrorKind::Eof)]))
                },
            }
        },
    }
}

fn song_texts(input: &[u8], at: usize) -> (result: Result<
    ((String, String, String), usize),
    Vec<TrailEntry>,
>)
    requires
        at <= input.len(),
    ensures
        match result {
            Ok((texts, next)) => spec_song_texts(input@, at as int) == Ok::<
                ((Seq<char>, Seq<char>, Seq<char>), int),
                Seq<TrailEntry>,
            >(((texts.0@, texts.1@, texts.2@), next as int)) && next <= input.len(),
            Err(trail) => spec_song_texts(input@, at as int) == Err::<
                ((Seq<char>, Seq<char>, Seq<char>), int),
                Seq<TrailEntry>,
            >(trail@),
        },
{
    let (name, at_artist) = short_string(input, at)?;
    let (artist, at_comment) = short_string(input, at_artist)?;
    let (comment, next) = short_string(input, at_comment)?;
    Ok(((name, artist, comment), next))
}

fn tempo(input: &[u8], at: usize) -> (result: Result<((u8, Option<u8>), usize), Vec<TrailEntry>>)
    requires
        at <= input.len(),
    ensures
        outcome_of(result) == spec_tempo(input@, at as int),
        result matches Ok((_, next)) ==> next <= input.len(),
{
    let (ticks_per_row, at_enabled) = small_integer(input, at)?;
    let (timer_enabled, at_divider) = boolean(input, at_enabled)?;
    let (timer_divider, next) = integer(input, at_divider)?;
    if timer_divider > 255 {
        return failure(at_divider, InnerErrorKind::BadTimerDivider(timer_divider));
    }
    Ok(
        (
            (
                ticks_per_row,
                if timer_enabled {
                    Some(timer_divider as u8)
                } else {
                    None
                },
            ),
            next,
        ),
    )
}

fn sounds(input: &[u8], at: usize) -> (result: Result<
    ((InstrCollection, [[u8; 16]; 16]), usize),
    Vec<TrailEntry>,
>)
    requires
        at <= input.len(),
    ensures
        match result {
            Ok((sounds, next)) => spec_sounds(input@, at as int) == Ok::<
                (
                    (
                        (Seq<InstrumentModel>, Seq<InstrumentModel>, Seq<InstrumentModel>),
                        Seq<Seq<u8>>,
                    ),
                    int,
                ),
                Seq<TrailEntry>,
            >(
                (
                    (
                        (
                            bank_model(sounds.0.duty),
                            bank_model(sounds.0.wave),
                            bank_model(sounds.0.noise),
                        ),
                        Seq::new(16, |i: int| sounds.1[i]@),
                    ),
                    next as int,
                ),
            ) && next <= input.len(),
            Err(trail) => spec_sounds(input@, at as int) == Err::<
                (
                    (
                        (Seq<InstrumentModel>, Seq<InstrumentModel>, Seq<InstrumentModel>),
                        Seq<Seq<u8>>,
                    ),
                    int,
                ),
                Seq<TrailEntry>,
            >(trail@),
        },
{
    let (instruments, at_waves) = instr_collection_v3(input, at)?;
    let (waves, next) = wave_bank_v2(input, at_waves)?;
    Ok(((instruments, waves), next))
}

fn tracks(input: &[u8], at: usize) -> (result: Result<
    ((Vec<[PatternCell; 64]>, Vec<[usize; 4]>, [String; 16]), usize),
    Vec<TrailEntry>,
>)
    requires
        at <= input.len(),
    ensures
        match result {
            Ok((tracks, next)) => spec_tracks(input@, at as int) == Ok::<
                ((Seq<Seq<PatternCell>>, Seq<Seq<usize>>, Seq<Seq<char>>), int),
                Seq<TrailEntry>,
            >(
                (
                    (
                        patterns_model(tracks.0@),
                        rows_model(tracks.1@),
                        Seq::new(16, |i: int| tracks.2[i]@),
                    ),
                    next as int,
                ),
            ) && next <= input.len(),
            Err(trail) => spec_tracks(input@, at as int) == Err::<
                ((Seq<Seq<PatternCell>>, Seq<Seq<usize>>, Seq<Seq<char>>), int),
                Seq<TrailEntry>,
            >(trail@),
        },
{
    let (patterns, at_order) = pattern_map_v2(input, at)?;
    let (order_matrix, at_routines) = order_matrix(input, at_order)?;
    let (routines, next) = routine_bank(input, at_routines)?;
    Ok(((patterns, order_matrix, routines), next))
}

fn song_fields(input: &[u8], at: usize) -> (result: Result<(Song, usize), Vec<TrailEntry>>)
    requires
        at <= input.len(),
    ensures
        match result {
            Ok((song, next)) => spec_song_fields(input@, at as int) == Ok::<
                (SongModel, int),
                Seq<TrailEntry>,
            >((song.model(), next as int)) && next <= input.len(),
            Err(trail) => spec_song_fields(input@, at as int) == Err::<
                (SongModel, int),
                Seq<TrailEntry>,
            >(trail@),
        },
{
    let (texts, at_sounds) = song_texts(input, at)?;
    let (sounds, at_tempo) = sounds(input, at_sounds)?;
    let (tempo, at_tracks) = tempo(input, at_tempo)?;
    let (tracks, next) = tracks(input, at_tracks)?;
    let song = Song {
        name: texts.0,
        artist: texts.1,
        comment: texts.2,
        instruments: sounds.0,
        waves: sounds.1,
        ticks_per_row: tempo.0,
        timer_divider: tempo.1,
        patterns: tracks.0,
        order_matrix: tracks.1,
        routines: tracks.2,
    };
    proof {
        assert(song.model().patterns =~= patterns_model(song.patterns@));
        assert(song.model().order_matrix =~= rows_model(song.order_matrix@));
    }
    Ok((song, next))
}

fn song_v6(input: &[u8], at: usize) -> (result: Result<(Song, usize), Vec<TrailEntry>>)
    requires
        at <= input.len(),
    ensures
        match result {
            Ok((song, next)) => spec_song_v6(input@, at as int) == Ok::<
                (SongModel, int),
                Seq<TrailEntry>,
            >((song.model(), next as int)) && next <= input.len(),
            Err(trail) => spec_song_v6(input@, at as int) == Err::<
                (SongModel, int),
                Seq<TrailEntry>,
            >(trail@),
        },
{
    match song_fields(input, at) {
        Ok(read) => Ok(read),
        Err(trail) => Err(with_context(trail, at, ParseContext::SongV6)),
    }
}

/// Reads a song from the bytes of a project file.
pub fn parse_song(input: &[u8]) -> (result: Result<Song, ParseError>)
    ensures
        match result {
            Ok(song) => spec_parse_song(input@) == Ok::<SongModel, ParseFailure>(song.model()),
            Err(error) => spec_parse_song(input@) == Err::<SongModel, ParseFailure>(error.model()),
        },
{
    let version = match le_u32(input, 0) {
        Some(version) => version,
        None => {
            return Err(ParseError(ParseErrorKind::NotUge));
        },
    };
    if version <= 5 {
        return Err(ParseError(ParseErrorKind::UnsupportedVersion(version)));
    }
    if version >= 7 {
        return Err(ParseError(ParseErrorKind::TooNew(version)));
    }
    match song_v6(input, 4) {
        Ok((song, end)) => {
            if end == input.len() {
                Ok(song)
            } else {
                let mut trail: Vec<TrailEntry> = Vec::new();
                trail.push((end, InnerErrorKind::Eof));
                assert(trail@ =~= seq![(end, InnerErrorKind::Eof)]);
                Err(ParseError(ParseErrorKind::BadData { trail }))
            }
        },
        Err(trail) => Err(ParseError(ParseErrorKind::BadData { trail })),
    }
}

} // verus!
