//! A song as the tracker has it.

use vstd::prelude::*;

verus! {

/// Number of rows in a pattern of the main grid.
pub const PATTERN_LENGTH: u8 = 64;

/// Number of pitched notes; every pitched note's value is below this.
pub const LAST_NOTE: u8 = 72;

/// The value that stands for "no note" in a pattern cell.
pub const NO_NOTE: u8 = 90;

pub type InstrumentBank = [Instrument; 15];

pub type Wave = [u8; 16];

pub type WaveBank = [Wave; 16];

pub type RoutineBank = [String; 16];

pub type Pattern = [PatternCell; 64];

pub type Subpattern = [SubpatternCell; 32];

/// A tracker song, as read from a project file.
#[derive(Debug, Clone)]
pub struct Song {
    pub name: String,
    pub artist: String,
    pub comment: String,
    pub instruments: InstrCollection,
    pub waves: WaveBank,
    pub ticks_per_row: u8,
    pub timer_divider: Option<u8>,
    pub patterns: Vec<Pattern>,
    pub order_matrix: Vec<[usize; 4]>,
    pub routines: RoutineBank,
}

/// The three instrument banks, one per family of channels.
#[derive(Debug, Clone)]
pub struct InstrCollection {
    pub duty: InstrumentBank,
    pub wave: InstrumentBank,
    pub noise: InstrumentBank,
}

#[derive(Debug, Clone, Default)]
pub struct Instrument {
    pub name: String,
    pub length: Option<u8>,
    pub kind: InstrumentKind,
    pub subpattern: Option<Subpattern>,
}

#[derive(Debug, Clone, Copy, PartialEq, Eq, Structural)]
pub enum InstrumentKind {
    Square {
        initial_volume: u8,
        envelope_dir: EnvelopeDirection,
        envelope_pace: u8,
        sweep_time: u8,
        sweep_dir: SweepDirection,
        sweep_shift: u8,
        duty: DutyType,
    },
    Wave { output_level: WaveOutputLevel, wave_id: u8 },
    Noise {
        initial_volume: u8,
        envelope_dir: EnvelopeDirection,
        envelope_pace: u8,
        lfsr_width: LfsrWidth,
    },
}

impl InstrumentKind {
    /// Number of bytes that an instrument of this kind takes in its bank.
    pub open spec fn spec_data_size(&self) -> usize {
        match self {
            InstrumentKind::Square { .. } => 6,
            InstrumentKind::Wave { .. } => 6,
            InstrumentKind::Noise { .. } => 4,
        }
    }

    #[verifier::when_used_as_spec(spec_data_size)]
    pub fn data_size(&self) -> (size: usize)
        ensures
            size == self.spec_data_size(),
    {
        match self {
            InstrumentKind::Square { .. } => 6,
            InstrumentKind::Wave { .. } => 6,
            InstrumentKind::Noise { .. } => 4,
        }
    }
}

impl Default for InstrumentKind {
    fn default() -> (kind: Self)
        ensures
            kind == (InstrumentKind::Wave { output_level: WaveOutputLevel::Mute, wave_id: 0 }),
    {
        InstrumentKind::Wave { output_level: WaveOutputLevel::Mute, wave_id: 0 }
    }
}

#[derive(Debug, Clone, Copy, PartialEq, Eq, Hash, Structural)]
pub enum EnvelopeDirection {
    Down,
    Up,
}

#[derive(Debug, Clone, Copy, PartialEq, Eq, Hash, Structural)]
pub enum SweepDirection {
    Down,
    Up,
}

#[derive(Debug, Clone, Copy, PartialEq, Eq, Hash, Structural)]
pub enum DutyType {
    Percent12_5,
    Percent25,
    Percent50,
    Percent75,
}

#[derive(Debug, Clone, Copy, PartialEq, Eq, Hash, Structural)]
pub enum WaveOutputLevel {
    Mute,
    Full,
    Half,
    Quarter,
}

#[derive(Debug, Clone, Copy, PartialEq, Eq, Hash, Structural)]
pub enum LfsrWidth {
    Fifteen,
    Seven,
}

/// One row of one channel in a pattern of the main grid.
#[derive(Debug, Clone, Copy, PartialEq, Eq, Structural)]
pub struct PatternCell {
    pub note: Note,
    pub instrument: u8,
    pub effect_code: EffectId,
    pub effect_param: u8,
}

impl Default for PatternCell {
    fn default() -> (cell: Self)
        ensures
            cell == (PatternCell {
                note: Note::NoNote,
                instrument: 0,
                effect_code: EffectId::Arpeggio,
                effect_param: 0,
            }),
    {
        PatternCell { note: Note::NoNote, instrument: 0, effect_code: EffectId::Arpeggio, effect_param: 0 }
    }
}

/// One row of a subpattern. `next_row_idx` is the row that plays after this one.
#[derive(Debug, Clone, Copy, PartialEq, Eq, Structural)]
pub struct SubpatternCell {
    pub offset: u8,
    pub next_row_idx: u8,
    pub effect_code: EffectId,
    pub effect_param: u8,
}

impl Default for SubpatternCell {
    fn default() -> (cell: Self)
        ensures
            cell == (SubpatternCell {
                offset: 0,
                next_row_idx: 0,
                effect_code: EffectId::Arpeggio,
                effect_param: 0,
            }),
    {
        SubpatternCell { offset: 0, next_row_idx: 0, effect_code: EffectId::Arpeggio, effect_param: 0 }
    }
}

#[derive(Debug, Clone, Copy, PartialEq, Eq, Hash, Structural)]
#[allow(non_camel_case_types)]
pub enum Note {
    C_3,
    CSharp3,
    D_3,
    DSharp3,
    E_3,
    F_3,
    FSharp3,
    G_3,
    GSharp3,
    A_3,
    ASharp3,
    B_3,
    C_4,
    CSharp4,
    D_4,
    DSharp4,
    E_4,
    F_4,
    FSharp4,
    G_4,
    GSharp4,
    A_4,
    ASharp4,
    B_4,
    C_5,
    CSharp5,
    D_5,
    DSharp5,
    E_5,
    F_5,
    FSharp5,
    G_5,
    GSharp5,
    A_5,
    ASharp5,
    B_5,
    C_6,
    CSharp6,
    D_6,
    DSharp6,
    E_6,
    F_6,
    FSharp6,
    G_6,
    GSharp6,
    A_6,
    ASharp6,
    B_6,
    C_7,
    CSharp7,
    D_7,
    DSharp7,
    E_7,
    F_7,
    FSharp7,
    G_7,
    GSharp7,
    A_7,
    ASharp7,
    B_7,
    C_8,
    CSharp8,
    D_8,
    DSharp8,
    E_8,
    F_8,
    FSharp8,
    G_8,
    GSharp8,
    A_8,
    ASharp8,
    B_8,
    NoNote,
}

impl Note {
    /// The byte that stands for this note on the target: the pitched notes count up from 0,
    /// and "no note" is 90.
    pub open spec fn spec_value(self) -> u8 {
        match self {
            Note::C_3 => 0,
            Note::CSharp3 => 1,
            Note::D_3 => 2,
            Note::DSharp3 => 3,
            Note::E_3 => 4,
            Note::F_3 => 5,
            Note::FSharp3 => 6,
            Note::G_3 => 7,
            Note::GSharp3 => 8,
            Note::A_3 => 9,
            Note::ASharp3 => 10,
            Note::B_3 => 11,
            Note::C_4 => 12,
            Note::CSharp4 => 13,
            Note::D_4 => 14,
            Note::DSharp4 => 15,
            Note::E_4 => 16,
            Note::F_4 => 17,
            Note::FSharp4 => 18,
            Note::G_4 => 19,
            Note::GSharp4 => 20,
            Note::A_4 => 21,
            Note::ASharp4 => 22,
            Note::B_4 => 23,
            Note::C_5 => 24,
            Note::CSharp5 => 25,
            Note::D_5 => 26,
            Note::DSharp5 => 27,
            Note::E_5 => 28,
            Note::F_5 => 29,
            Note::FSharp5 => 30,
            Note::G_5 => 31,
            Note::GSharp5 => 32,
            Note::A_5 => 33,
            Note::ASharp5 => 34,
            Note::B_5 => 35,
            Note::C_6 => 36,
            Note::CSharp6 => 37,
            Note::D_6 => 38,
            Note::DSharp6 => 39,
            Note::E_6 => 40,
            Note::F_6 => 41,
            Note::FSharp6 => 42,
            Note::G_6 => 43,
            Note::GSharp6 => 44,
            Note::A_6 => 45,
            Note::ASharp6 => 46,
            Note::B_6 => 47,
            Note::C_7 => 48,
            Note::CSharp7 => 49,
            Note::D_7 => 50,
            Note::DSharp7 => 51,
            Note::E_7 => 52,
            Note::F_7 => 53,
            Note::FSharp7 => 54,
            Note::G_7 => 55,
            Note::GSharp7 => 56,
            Note::A_7 => 57,
            Note::ASharp7 => 58,
            Note::B_7 => 59,
            Note::C_8 => 60,
            Note::CSharp8 => 61,
            Note::D_8 => 62,
            Note::DSharp8 => 63,
            Note::E_8 => 64,
            Note::F_8 => 65,
            Note::FSharp8 => 66,
            Note::G_8 => 67,
            Note::GSharp8 => 68,
            Note::A_8 => 69,
            Note::ASharp8 => 70,
            Note::B_8 => 71,
            Note::NoNote => 90,
        }
    }

    #[verifier::when_used_as_spec(spec_value)]
    pub fn value(self) -> (v: u8)
        ensures
            v == self.spec_value(),
            v < LAST_NOTE || v == NO_NOTE,
    {
        match self {
            Note::C_3 => 0,
            Note::CSharp3 => 1,
            Note::D_3 => 2,
            Note::DSharp3 => 3,
            Note::E_3 => 4,
            Note::F_3 => 5,
            Note::FSharp3 => 6,
            Note::G_3 => 7,
            Note::GSharp3 => 8,
            Note::A_3 => 9,
            Note::ASharp3 => 10,
            Note::B_3 => 11,
            Note::C_4 => 12,
            Note::CSharp4 => 13,
            Note::D_4 => 14,
            Note::DSharp4 => 15,
            Note::E_4 => 16,
            Note::F_4 => 17,
            Note::FSharp4 => 18,
            Note::G_4 => 19,
            Note::GSharp4 => 20,
            Note::A_4 => 21,
            Note::ASharp4 => 22,
            Note::B_4 => 23,
            Note::C_5 => 24,
            Note::CSharp5 => 25,
            Note::D_5 => 26,
            Note::DSharp5 => 27,
            Note::E_5 => 28,
            Note::F_5 => 29,
            Note::FSharp5 => 30,
            Note::G_5 => 31,
            Note::GSharp5 => 32,
            Note::A_5 => 33,
            Note::ASharp5 => 34,
            Note::B_5 => 35,
            Note::C_6 => 36,
            Note::CSharp6 => 37,
            Note::D_6 => 38,
            Note::DSharp6 => 39,
            Note::E_6 => 40,
            Note::F_6 => 41,
            Note::FSharp6 => 42,
            Note::G_6 => 43,
            Note::GSharp6 => 44,
            Note::A_6 => 45,
            Note::ASharp6 => 46,
            Note::B_6 => 47,
            Note::C_7 => 48,
            Note::CSharp7 => 49,
            Note::D_7 => 50,
            Note::DSharp7 => 51,
            Note::E_7 => 52,
            Note::F_7 => 53,
            Note::FSharp7 => 54,
            Note::G_7 => 55,
            Note::GSharp7 => 56,
            Note::A_7 => 57,
            Note::ASharp7 => 58,
            Note::B_7 => 59,
            Note::C_8 => 60,
            Note::CSharp8 => 61,
            Note::D_8 => 62,
            Note::DSharp8 => 63,
            Note::E_8 => 64,
            Note::F_8 => 65,
            Note::FSharp8 => 66,
            Note::G_8 => 67,
            Note::GSharp8 => 68,
            Note::A_8 => 69,
            Note::ASharp8 => 70,
            Note::B_8 => 71,
            Note::NoNote => 90,
        }
    }

    /// The note whose value is `value`, if there is one.
    pub open spec fn spec_from_value(value: u32) -> Option<Note> {
        match value {
            0 => Some(Note::C_3),
            1 => Some(Note::CSharp3),
            2 => Some(Note::D_3),
            3 => Some(Note::DSharp3),
            4 => Some(Note::E_3),
            5 => Some(Note::F_3),
            6 => Some(Note::FSharp3),
            7 => Some(Note::G_3),
            8 => Some(Note::GSharp3),
            9 => Some(Note::A_3),
            10 => Some(Note::ASharp3),
            11 => Some(Note::B_3),
            12 => Some(Note::C_4),
            13 => Some(Note::CSharp4),
            14 => Some(Note::D_4),
            15 => Some(Note::DSharp4),
            16 => Some(Note::E_4),
            17 => Some(Note::F_4),
            18 => Some(Note::FSharp4),
            19 => Some(Note::G_4),
            20 => Some(Note::GSharp4),
            21 => Some(Note::A_4),
            22 => Some(Note::ASharp4),
            23 => Some(Note::B_4),
            24 => Some(Note::C_5),
            25 => Some(Note::CSharp5),
            26 => Some(Note::D_5),
            27 => Some(Note::DSharp5),
            28 => Some(Note::E_5),
            29 => Some(Note::F_5),
            30 => Some(Note::FSharp5),
            31 => Some(Note::G_5),
            32 => Some(Note::GSharp5),
            33 => Some(Note::A_5),
            34 => Some(Note::ASharp5),
            35 => Some(Note::B_5),
            36 => Some(Note::C_6),
            37 => Some(Note::CSharp6),
            38 => Some(Note::D_6),
            39 => Some(Note::DSharp6),
            40 => Some(Note::E_6),
            41 => Some(Note::F_6),
            42 => Some(Note::FSharp6),
            43 => Some(Note::G_6),
            44 => Some(Note::GSharp6),
            45 => Some(Note::A_6),
            46 => Some(Note::ASharp6),
            47 => Some(Note::B_6),
            48 => Some(Note::C_7),
            49 => Some(Note::CSharp7),
            50 => Some(Note::D_7),
            51 => Some(Note::DSharp7),
            52 => Some(Note::E_7),
            53 => Some(Note::F_7),
            54 => Some(Note::FSharp7),
            55 => Some(Note::G_7),
            56 => Some(Note::GSharp7),
            57 => Some(Note::A_7),
            58 => Some(Note::ASharp7),
            59 => Some(Note::B_7),
            60 => Some(Note::C_8),
            61 => Some(Note::CSharp8),
            62 => Some(Note::D_8),
            63 => Some(Note::DSharp8),
            64 => Some(Note::E_8),
            65 => Some(Note::F_8),
            66 => Some(Note::FSharp8),
            67 => Some(Note::G_8),
            68 => Some(Note::GSharp8),
            69 => Some(Note::A_8),
            70 => Some(Note::ASharp8),
            71 => Some(Note::B_8),
            90 => Some(Note::NoNote),
            _ => None,
        }
    }

    #[verifier::when_used_as_spec(spec_from_value)]
    pub fn from_value(value: u32) -> (note: Option<Note>)
        ensures
            note == Self::spec_from_value(value),
            match note {
                Some(n) => n.spec_value() == value,
                None => forall|n: Note| n.spec_value() != value,
            },
    {
        match value {
            0 => Some(Note::C_3),
            1 => Some(Note::CSharp3),
            2 => Some(Note::D_3),
            3 => Some(Note::DSharp3),
            4 => Some(Note::E_3),
            5 => Some(Note::F_3),
            6 => Some(Note::FSharp3),
            7 => Some(Note::G_3),
            8 => Some(Note::GSharp3),
            9 => Some(Note::A_3),
            10 => Some(Note::ASharp3),
            11 => Some(Note::B_3),
            12 => Some(Note::C_4),
            13 => Some(Note::CSharp4),
            14 => Some(Note::D_4),
            15 => Some(Note::DSharp4),
            16 => Some(Note::E_4),
            17 => Some(Note::F_4),
            18 => Some(Note::FSharp4),
            19 => Some(Note::G_4),
            20 => Some(Note::GSharp4),
            21 => Some(Note::A_4),
            22 => Some(Note::ASharp4),
            23 => Some(Note::B_4),
            24 => Some(Note::C_5),
            25 => Some(Note::CSharp5),
            26 => Some(Note::D_5),
            27 => Some(Note::DSharp5),
            28 => Some(Note::E_5),
            29 => Some(Note::F_5),
            30 => Some(Note::FSharp5),
            31 => Some(Note::G_5),
            32 => Some(Note::GSharp5),
            33 => Some(Note::A_5),
            34 => Some(Note::ASharp5),
            35 => Some(Note::B_5),
            36 => Some(Note::C_6),
            37 => Some(Note::CSharp6),
            38 => Some(Note::D_6),
            39 => Some(Note::DSharp6),
            40 => Some(Note::E_6),
            41 => Some(Note::F_6),
            42 => Some(Note::FSharp6),
            43 => Some(Note::G_6),
            44 => Some(Note::GSharp6),
            45 => Some(Note::A_6),
            46 => Some(Note::ASharp6),
            47 => Some(Note::B_6),
            48 => Some(Note::C_7),
            49 => Some(Note::CSharp7),
            50 => Some(Note::D_7),
            51 => Some(Note::DSharp7),
            52 => Some(Note::E_7),
            53 => Some(Note::F_7),
            54 => Some(Note::FSharp7),
            55 => Some(Note::G_7),
            56 => Some(Note::GSharp7),
            57 => Some(Note::A_7),
            58 => Some(Note::ASharp7),
            59 => Some(Note::B_7),
            60 => Some(Note::C_8),
            61 => Some(Note::CSharp8),
            62 => Some(Note::D_8),
            63 => Some(Note::DSharp8),
            64 => Some(Note::E_8),
            65 => Some(Note::F_8),
            66 => Some(Note::FSharp8),
            67 => Some(Note::G_8),
            68 => Some(Note::GSharp8),
            69 => Some(Note::A_8),
            70 => Some(Note::ASharp8),
            71 => Some(Note::B_8),
            90 => Some(Note::NoNote),
            _ => None,
        }
    }
}

impl Default for Note {
    fn default() -> (note: Self)
        ensures
            note == Note::NoNote,
    {
        Note::NoNote
    }
}

#[derive(Debug, Clone, Copy, PartialEq, Eq, Hash, Structural)]
pub enum EffectId {
    Arpeggio,
    PortaUp,
    PortaDown,
    TonePorta,
    Vibrato,
    SetMasterVol,
    CallRoutine,
    NoteDelay,
    SetPanning,
    ChangeTimbre,
    VolSlide,
    PosJump,
    SetVol,
    PatternBreak,
    NoteCut,
    SetTempo,
}

impl EffectId {
    /// The effect's number, which is also its four-bit code on the target.
    pub open spec fn spec_code(self) -> u8 {
        match self {
            EffectId::Arpeggio => 0x0,
            EffectId::PortaUp => 0x1,
            EffectId::PortaDown => 0x2,
            EffectId::TonePorta => 0x3,
            EffectId::Vibrato => 0x4,
            EffectId::SetMasterVol => 0x5,
            EffectId::CallRoutine => 0x6,
            EffectId::NoteDelay => 0x7,
            EffectId::SetPanning => 0x8,
            EffectId::ChangeTimbre => 0x9,
            EffectId::VolSlide => 0xA,
            EffectId::PosJump => 0xB,
            EffectId::SetVol => 0xC,
            EffectId::PatternBreak => 0xD,
            EffectId::NoteCut => 0xE,
            EffectId::SetTempo => 0xF,
        }
    }

    #[verifier::when_used_as_spec(spec_code)]
    pub fn code(self) -> (c: u8)
        ensures
            c == self.spec_code(),
            c < 16,
    {
        match self {
            EffectId::Arpeggio => 0x0,
            EffectId::PortaUp => 0x1,
            EffectId::PortaDown => 0x2,
            EffectId::TonePorta => 0x3,
            EffectId::Vibrato => 0x4,
            EffectId::SetMasterVol => 0x5,
            EffectId::CallRoutine => 0x6,
            EffectId::NoteDelay => 0x7,
            EffectId::SetPanning => 0x8,
            EffectId::ChangeTimbre => 0x9,
            EffectId::VolSlide => 0xA,
            EffectId::PosJump => 0xB,
            EffectId::SetVol => 0xC,
            EffectId::PatternBreak => 0xD,
            EffectId::NoteCut => 0xE,
            EffectId::SetTempo => 0xF,
        }
    }

    /// The effect whose number is `code`, if there is one.
    pub open spec fn spec_from_code(code: u32) -> Option<EffectId> {
        match code {
            0x0 => Some(EffectId::Arpeggio),
            0x1 => Some(EffectId::PortaUp),
            0x2 => Some(EffectId::PortaDown),
            0x3 => Some(EffectId::TonePorta),
            0x4 => Some(EffectId::Vibrato),
            0x5 => Some(EffectId::SetMasterVol),
            0x6 => Some(EffectId::CallRoutine),
            0x7 => Some(EffectId::NoteDelay),
            0x8 => Some(EffectId::SetPanning),
            0x9 => Some(EffectId::ChangeTimbre),
            0xA => Some(EffectId::VolSlide),
            0xB => Some(EffectId::PosJump),
            0xC => Some(EffectId::SetVol),
            0xD => Some(EffectId::PatternBreak),
            0xE => Some(EffectId::NoteCut),
            0xF => Some(EffectId::SetTempo),
            _ => None,
        }
    }

    #[verifier::when_used_as_spec(spec_from_code)]
    pub fn from_code(code: u32) -> (id: Option<EffectId>)
        ensures
            id == Self::spec_from_code(code),
            match id {
                Some(e) => e.spec_code() == code,
                None => code >= 16,
            },
    {
        match code {
            0x0 => Some(EffectId::Arpeggio),
            0x1 => Some(EffectId::PortaUp),
            0x2 => Some(EffectId::PortaDown),
            0x3 => Some(EffectId::TonePorta),
            0x4 => Some(EffectId::Vibrato),
            0x5 => Some(EffectId::SetMasterVol),
            0x6 => Some(EffectId::CallRoutine),
            0x7 => Some(EffectId::NoteDelay),
            0x8 => Some(EffectId::SetPanning),
            0x9 => Some(EffectId::ChangeTimbre),
            0xA => Some(EffectId::VolSlide),
            0xB => Some(EffectId::PosJump),
            0xC => Some(EffectId::SetVol),
            0xD => Some(EffectId::PatternBreak),
            0xE => Some(EffectId::NoteCut),
            0xF => Some(EffectId::SetTempo),
            _ => None,
        }
    }
}

impl Default for EffectId {
    fn default() -> (id: Self)
        ensures
            id == EffectId::Arpeggio,
    {
        EffectId::Arpeggio
    }
}

/// An instrument as the file's grammar speaks of it.
pub struct InstrumentModel {
    pub name: Seq<char>,
    pub length: Option<u8>,
    pub kind: InstrumentKind,
    pub subpattern: Option<Seq<SubpatternCell>>,
}

/// A song as the file's grammar speaks of it.
pub struct SongModel {
    pub name: Seq<char>,
    pub artist: Seq<char>,
    pub comment: Seq<char>,
    pub duty: Seq<InstrumentModel>,
    pub wave: Seq<InstrumentModel>,
    pub noise: Seq<InstrumentModel>,
    pub waves: Seq<Seq<u8>>,
    pub ticks_per_row: u8,
    pub timer_divider: Option<u8>,
    pub patterns: Seq<Seq<PatternCell>>,
    pub order_matrix: Seq<Seq<usize>>,
    pub routines: Seq<Seq<char>>,
}

impl Instrument {
    pub open spec fn model(&self) -> InstrumentModel {
        InstrumentModel {
            name: self.name@,
            length: self.length,
            kind: self.kind,
            subpattern: match self.subpattern {
                Some(subpattern) => Some(subpattern@),
                None => None,
            },
        }
    }
}

/// The instruments of a bank as the file's grammar speaks of them.
pub open spec fn bank_model(bank: InstrumentBank) -> Seq<InstrumentModel> {
    Seq::new(15, |i: int| bank[i].model())
}

impl Song {
    pub open spec fn model(&self) -> SongModel {
        SongModel {
            name: self.name@,
            artist: self.artist@,
            comment: self.comment@,
            duty: bank_model(self.instruments.duty),
            wave: bank_model(self.instruments.wave),
            noise: bank_model(self.instruments.noise),
            waves: Seq::new(16, |i: int| self.waves[i]@),
            ticks_per_row: self.ticks_per_row,
            timer_divider: self.timer_divider,
            patterns: Seq::new(self.patterns.len() as nat, |i: int| self.patterns[i]@),
            order_matrix: Seq::new(self.order_matrix.len() as nat, |i: int| self.order_matrix[i]@),
            routines: Seq::new(16, |i: int| self.routines[i]@),
        }
    }
}

} // verus!
