//! The codes of compiled patterns: opcodes, position assertions, character categories and flags.
use vstd::prelude::*;

verus! {

/// Identifies the version of the pattern compiler that this engine reads.
pub const SRE_MAGIC: usize = 20221023;

/// The operations of a compiled pattern.
#[allow(non_camel_case_types)]
#[derive(Clone, Copy, Debug, PartialEq, Eq, Structural)]
pub enum SreOpcode {
    FAILURE,
    SUCCESS,
    ANY,
    ANY_ALL,
    ASSERT,
    ASSERT_NOT,
    AT,
    BRANCH,
    CATEGORY,
    CHARSET,
    BIGCHARSET,
    GROUPREF,
    GROUPREF_EXISTS,
    IN,
    INFO,
    JUMP,
    LITERAL,
    MARK,
    MAX_UNTIL,
    MIN_UNTIL,
    NOT_LITERAL,
    NEGATE,
    RANGE,
    REPEAT,
    REPEAT_ONE,
    SUBPATTERN,
    MIN_REPEAT_ONE,
    ATOMIC_GROUP,
    POSSESSIVE_REPEAT,
    POSSESSIVE_REPEAT_ONE,
    GROUPREF_IGNORE,
    IN_IGNORE,
    LITERAL_IGNORE,
    NOT_LITERAL_IGNORE,
    GROUPREF_LOC_IGNORE,
    IN_LOC_IGNORE,
    LITERAL_LOC_IGNORE,
    NOT_LITERAL_LOC_IGNORE,
    GROUPREF_UNI_IGNORE,
    IN_UNI_IGNORE,
    LITERAL_UNI_IGNORE,
    NOT_LITERAL_UNI_IGNORE,
    RANGE_UNI_IGNORE,
}

/// The SreOpcode variant whose code is `code`, if any.
pub open spec fn opcode_of(code: u32) -> Option<SreOpcode> {
    match code {
        0u32 => Some(SreOpcode::FAILURE),
        1u32 => Some(SreOpcode::SUCCESS),
        2u32 => Some(SreOpcode::ANY),
        3u32 => Some(SreOpcode::ANY_ALL),
        4u32 => Some(SreOpcode::ASSERT),
        5u32 => Some(SreOpcode::ASSERT_NOT),
        6u32 => Some(SreOpcode::AT),
        7u32 => Some(SreOpcode::BRANCH),
        8u32 => Some(SreOpcode::CATEGORY),
        9u32 => Some(SreOpcode::CHARSET),
        10u32 => Some(SreOpcode::BIGCHARSET),
        11u32 => Some(SreOpcode::GROUPREF),
        12u32 => Some(SreOpcode::GROUPREF_EXISTS),
        13u32 => Some(SreOpcode::IN),
        14u32 => Some(SreOpcode::INFO),
        15u32 => Some(SreOpcode::JUMP),
        16u32 => Some(SreOpcode::LITERAL),
        17u32 => Some(SreOpcode::MARK),
        18u32 => Some(SreOpcode::MAX_UNTIL),
        19u32 => Some(SreOpcode::MIN_UNTIL),
        20u32 => Some(SreOpcode::NOT_LITERAL),
        21u32 => Some(SreOpcode::NEGATE),
        22u32 => Some(SreOpcode::RANGE),
        23u32 => Some(SreOpcode::REPEAT),
        24u32 => Some(SreOpcode::REPEAT_ONE),
        25u32 => Some(SreOpcode::SUBPATTERN),
        26u32 => Some(SreOpcode::MIN_REPEAT_ONE),
        27u32 => Some(SreOpcode::ATOMIC_GROUP),
        28u32 => Some(SreOpcode::POSSESSIVE_REPEAT),
        29u32 => Some(SreOpcode::POSSESSIVE_REPEAT_ONE),
        30u32 => Some(SreOpcode::GROUPREF_IGNORE),
        31u32 => Some(SreOpcode::IN_IGNORE),
        32u32 => Some(SreOpcode::LITERAL_IGNORE),
        33u32 => Some(SreOpcode::NOT_LITERAL_IGNORE),
        34u32 => Some(SreOpcode::GROUPREF_LOC_IGNORE),
        35u32 => Some(SreOpcode::IN_LOC_IGNORE),
        36u32 => Some(SreOpcode::LITERAL_LOC_IGNORE),
        37u32 => Some(SreOpcode::NOT_LITERAL_LOC_IGNORE),
        38u32 => Some(SreOpcode::GROUPREF_UNI_IGNORE),
        39u32 => Some(SreOpcode::IN_UNI_IGNORE),
        40u32 => Some(SreOpcode::LITERAL_UNI_IGNORE),
        41u32 => Some(SreOpcode::NOT_LITERAL_UNI_IGNORE),
        42u32 => Some(SreOpcode::RANGE_UNI_IGNORE),
        _ => None,
    }
}

impl SreOpcode {
    /// The numeric code of this variant in compiled patterns.
    pub open spec fn spec_code(self) -> u32 {
        match self {
            SreOpcode::FAILURE => 0u32,
            SreOpcode::SUCCESS => 1u32,
            SreOpcode::ANY => 2u32,
            SreOpcode::ANY_ALL => 3u32,
            SreOpcode::ASSERT => 4u32,
            SreOpcode::ASSERT_NOT => 5u32,
            SreOpcode::AT => 6u32,
            SreOpcode::BRANCH => 7u32,
            SreOpcode::CATEGORY => 8u32,
            SreOpcode::CHARSET => 9u32,
            SreOpcode::BIGCHARSET => 10u32,
            SreOpcode::GROUPREF => 11u32,
            SreOpcode::GROUPREF_EXISTS => 12u32,
            SreOpcode::IN => 13u32,
            SreOpcode::INFO => 14u32,
            SreOpcode::JUMP => 15u32,
            SreOpcode::LITERAL => 16u32,
            SreOpcode::MARK => 17u32,
            SreOpcode::MAX_UNTIL => 18u32,
            SreOpcode::MIN_UNTIL => 19u32,
            SreOpcode::NOT_LITERAL => 20u32,
            SreOpcode::NEGATE => 21u32,
            SreOpcode::RANGE => 22u32,
            SreOpcode::REPEAT => 23u32,
            SreOpcode::REPEAT_ONE => 24u32,
            SreOpcode::SUBPATTERN => 25u32,
            SreOpcode::MIN_REPEAT_ONE => 26u32,
            SreOpcode::ATOMIC_GROUP => 27u32,
            SreOpcode::POSSESSIVE_REPEAT => 28u32,
            SreOpcode::POSSESSIVE_REPEAT_ONE => 29u32,
            SreOpcode::GROUPREF_IGNORE => 30u32,
            SreOpcode::IN_IGNORE => 31u32,
            SreOpcode::LITERAL_IGNORE => 32u32,
            SreOpcode::NOT_LITERAL_IGNORE => 33u32,
            SreOpcode::GROUPREF_LOC_IGNORE => 34u32,
            SreOpcode::IN_LOC_IGNORE => 35u32,
            SreOpcode::LITERAL_LOC_IGNORE => 36u32,
            SreOpcode::NOT_LITERAL_LOC_IGNORE => 37u32,
            SreOpcode::GROUPREF_UNI_IGNORE => 38u32,
            SreOpcode::IN_UNI_IGNORE => 39u32,
            SreOpcode::LITERAL_UNI_IGNORE => 40u32,
            SreOpcode::NOT_LITERAL_UNI_IGNORE => 41u32,
            SreOpcode::RANGE_UNI_IGNORE => 42u32,
        }
    }

    /// The numeric code of this variant in compiled patterns.
    pub fn code(self) -> (r: u32)
        ensures
            r == self.spec_code(),
    {
        match self {
            SreOpcode::FAILURE => 0,
            SreOpcode::SUCCESS => 1,
            SreOpcode::ANY => 2,
            SreOpcode::ANY_ALL => 3,
            SreOpcode::ASSERT => 4,
            SreOpcode::ASSERT_NOT => 5,
            SreOpcode::AT => 6,
            SreOpcode::BRANCH => 7,
            SreOpcode::CATEGORY => 8,
            SreOpcode::CHARSET => 9,
            SreOpcode::BIGCHARSET => 10,
            SreOpcode::GROUPREF => 11,
            SreOpcode::GROUPREF_EXISTS => 12,
            SreOpcode::IN => 13,
            SreOpcode::INFO => 14,
            SreOpcode::JUMP => 15,
            SreOpcode::LITERAL => 16,
            SreOpcode::MARK => 17,
            SreOpcode::MAX_UNTIL => 18,
            SreOpcode::MIN_UNTIL => 19,
            SreOpcode::NOT_LITERAL => 20,
            SreOpcode::NEGATE => 21,
            SreOpcode::RANGE => 22,
            SreOpcode::REPEAT => 23,
            SreOpcode::REPEAT_ONE => 24,
            SreOpcode::SUBPATTERN => 25,
            SreOpcode::MIN_REPEAT_ONE => 26,
            SreOpcode::ATOMIC_GROUP => 27,
            SreOpcode::POSSESSIVE_REPEAT => 28,
            SreOpcode::POSSESSIVE_REPEAT_ONE => 29,
            SreOpcode::GROUPREF_IGNORE => 30,
            SreOpcode::IN_IGNORE => 31,
            SreOpcode::LITERAL_IGNORE => 32,
            SreOpcode::NOT_LITERAL_IGNORE => 33,
            SreOpcode::GROUPREF_LOC_IGNORE => 34,
            SreOpcode::IN_LOC_IGNORE => 35,
            SreOpcode::LITERAL_LOC_IGNORE => 36,
            SreOpcode::NOT_LITERAL_LOC_IGNORE => 37,
            SreOpcode::GROUPREF_UNI_IGNORE => 38,
            SreOpcode::IN_UNI_IGNORE => 39,
            SreOpcode::LITERAL_UNI_IGNORE => 40,
            SreOpcode::NOT_LITERAL_UNI_IGNORE => 41,
            SreOpcode::RANGE_UNI_IGNORE => 42,
        }
    }

    /// Reads a code of a compiled pattern; `None` for a code that names no variant.
    pub fn try_from_code(code: u32) -> (r: Option<SreOpcode>)
        ensures
            r == opcode_of(code),
            r matches Some(v) ==> v.spec_code() == code,
    {
        match code {
            0 => Some(SreOpcode::FAILURE),
            1 => Some(SreOpcode::SUCCESS),
            2 => Some(SreOpcode::ANY),
            3 => Some(SreOpcode::ANY_ALL),
            4 => Some(SreOpcode::ASSERT),
            5 => Some(SreOpcode::ASSERT_NOT),
            6 => Some(SreOpcode::AT),
            7 => Some(SreOpcode::BRANCH),
            8 => Some(SreOpcode::CATEGORY),
            9 => Some(SreOpcode::CHARSET),
            10 => Some(SreOpcode::BIGCHARSET),
            11 => Some(SreOpcode::GROUPREF),
            12 => Some(SreOpcode::GROUPREF_EXISTS),
            13 => Some(SreOpcode::IN),
            14 => Some(SreOpcode::INFO),
            15 => Some(SreOpcode::JUMP),
            16 => Some(SreOpcode::LITERAL),
            17 => Some(SreOpcode::MARK),
            18 => Some(SreOpcode::MAX_UNTIL),
            19 => Some(SreOpcode::MIN_UNTIL),
            20 => Some(SreOpcode::NOT_LITERAL),
            21 => Some(SreOpcode::NEGATE),
            22 => Some(SreOpcode::RANGE),
            23 => Some(SreOpcode::REPEAT),
            24 => Some(SreOpcode::REPEAT_ONE),
            25 => Some(SreOpcode::SUBPATTERN),
            26 => Some(SreOpcode::MIN_REPEAT_ONE),
            27 => Some(SreOpcode::ATOMIC_GROUP),
            28 => Some(SreOpcode::POSSESSIVE_REPEAT),
            29 => Some(SreOpcode::POSSESSIVE_REPEAT_ONE),
            30 => Some(SreOpcode::GROUPREF_IGNORE),
            31 => Some(SreOpcode::IN_IGNORE),
            32 => Some(SreOpcode::LITERAL_IGNORE),
            33 => Some(SreOpcode::NOT_LITERAL_IGNORE),
            34 => Some(SreOpcode::GROUPREF_LOC_IGNORE),
            35 => Some(SreOpcode::IN_LOC_IGNORE),
            36 => Some(SreOpcode::LITERAL_LOC_IGNORE),
            37 => Some(SreOpcode::NOT_LITERAL_LOC_IGNORE),
            38 => Some(SreOpcode::GROUPREF_UNI_IGNORE),
            39 => Some(SreOpcode::IN_UNI_IGNORE),
            40 => Some(SreOpcode::LITERAL_UNI_IGNORE),
            41 => Some(SreOpcode::NOT_LITERAL_UNI_IGNORE),
            42 => Some(SreOpcode::RANGE_UNI_IGNORE),
            _ => None,
        }
    }
}

/// The position assertions of the `AT` operation.
#[allow(non_camel_case_types)]
#[derive(Clone, Copy, Debug, PartialEq, Eq, Structural)]
pub enum SreAtCode {
    BEGINNING,
    BEGINNING_LINE,
    BEGINNING_STRING,
    BOUNDARY,
    NON_BOUNDARY,
    END,
    END_LINE,
    END_STRING,
    LOC_BOUNDARY,
    LOC_NON_BOUNDARY,
    UNI_BOUNDARY,
    UNI_NON_BOUNDARY,
}

/// The SreAtCode variant whose code is `code`, if any.
pub open spec fn atcode_of(code: u32) -> Option<SreAtCode> {
    match code {
        0u32 => Some(SreAtCode::BEGINNING),
        1u32 => Some(SreAtCode::BEGINNING_LINE),
        2u32 => Some(SreAtCode::BEGINNING_STRING),
        3u32 => Some(SreAtCode::BOUNDARY),
        4u32 => Some(SreAtCode::NON_BOUNDARY),
        5u32 => Some(SreAtCode::END),
        6u32 => Some(SreAtCode::END_LINE),
        7u32 => Some(SreAtCode::END_STRING),
        8u32 => Some(SreAtCode::LOC_BOUNDARY),
        9u32 => Some(SreAtCode::LOC_NON_BOUNDARY),
        10u32 => Some(SreAtCode::UNI_BOUNDARY),
        11u32 => Some(SreAtCode::UNI_NON_BOUNDARY),
        _ => None,
    }
}

impl SreAtCode {
    /// The numeric code of this variant in compiled patterns.
    pub open spec fn spec_code(self) -> u32 {
        match self {
            SreAtCode::BEGINNING => 0u32,
            SreAtCode::BEGINNING_LINE => 1u32,
            SreAtCode::BEGINNING_STRING => 2u32,
            SreAtCode::BOUNDARY => 3u32,
            SreAtCode::NON_BOUNDARY => 4u32,
            SreAtCode::END => 5u32,
            SreAtCode::END_LINE => 6u32,
            SreAtCode::END_STRING => 7u32,
            SreAtCode::LOC_BOUNDARY => 8u32,
            SreAtCode::LOC_NON_BOUNDARY => 9u32,
            SreAtCode::UNI_BOUNDARY => 10u32,
            SreAtCode::UNI_NON_BOUNDARY => 11u32,
        }
    }

    /// The numeric code of this variant in compiled patterns.
    pub fn code(self) -> (r: u32)
        ensures
            r == self.spec_code(),
    {
        match self {
            SreAtCode::BEGINNING => 0,
            SreAtCode::BEGINNING_LINE => 1,
            SreAtCode::BEGINNING_STRING => 2,
            SreAtCode::BOUNDARY => 3,
            SreAtCode::NON_BOUNDARY => 4,
            SreAtCode::END => 5,
            SreAtCode::END_LINE => 6,
            SreAtCode::END_STRING => 7,
            SreAtCode::LOC_BOUNDARY => 8,
            SreAtCode::LOC_NON_BOUNDARY => 9,
            SreAtCode::UNI_BOUNDARY => 10,
            SreAtCode::UNI_NON_BOUNDARY => 11,
        }
    }

    /// Reads a code of a compiled pattern; `None` for a code that names no variant.
    pub fn try_from_code(code: u32) -> (r: Option<SreAtCode>)
        ensures
            r == atcode_of(code),
            r matches Some(v) ==> v.spec_code() == code,
    {
        match code {
            0 => Some(SreAtCode::BEGINNING),
            1 => Some(SreAtCode::BEGINNING_LINE),
            2 => Some(SreAtCode::BEGINNING_STRING),
            3 => Some(SreAtCode::BOUNDARY),
            4 => Some(SreAtCode::NON_BOUNDARY),
            5 => Some(SreAtCode::END),
            6 => Some(SreAtCode::END_LINE),
            7 => Some(SreAtCode::END_STRING),
            8 => Some(SreAtCode::LOC_BOUNDARY),
            9 => Some(SreAtCode::LOC_NON_BOUNDARY),
            10 => Some(SreAtCode::UNI_BOUNDARY),
            11 => Some(SreAtCode::UNI_NON_BOUNDARY),
            _ => None,
        }
    }
}

/// The character categories of the `CATEGORY` operation.
#[allow(non_camel_case_types)]
#[derive(Clone, Copy, Debug, PartialEq, Eq, Structural)]
pub enum SreCatCode {
    DIGIT,
    NOT_DIGIT,
    SPACE,
    NOT_SPACE,
    WORD,
    NOT_WORD,
    LINEBREAK,
    NOT_LINEBREAK,
    LOC_WORD,
    LOC_NOT_WORD,
    UNI_DIGIT,
    UNI_NOT_DIGIT,
    UNI_SPACE,
    UNI_NOT_SPACE,
    UNI_WORD,
    UNI_NOT_WORD,
    UNI_LINEBREAK,
    UNI_NOT_LINEBREAK,
}

/// The SreCatCode variant whose code is `code`, if any.
pub open spec fn catcode_of(code: u32) -> Option<SreCatCode> {
    match code {
        0u32 => Some(SreCatCode::DIGIT),
        1u32 => Some(SreCatCode::NOT_DIGIT),
        2u32 => Some(SreCatCode::SPACE),
        3u32 => Some(SreCatCode::NOT_SPACE),
        4u32 => Some(SreCatCode::WORD),
        5u32 => Some(SreCatCode::NOT_WORD),
        6u32 => Some(SreCatCode::LINEBREAK),
        7u32 => Some(SreCatCode::NOT_LINEBREAK),
        8u32 => Some(SreCatCode::LOC_WORD),
        9u32 => Some(SreCatCode::LOC_NOT_WORD),
        10u32 => Some(SreCatCode::UNI_DIGIT),
        11u32 => Some(SreCatCode::UNI_NOT_DIGIT),
        12u32 => Some(SreCatCode::UNI_SPACE),
        13u32 => Some(SreCatCode::UNI_NOT_SPACE),
        14u32 => Some(SreCatCode::UNI_WORD),
        15u32 => Some(SreCatCode::UNI_NOT_WORD),
        16u32 => Some(SreCatCode::UNI_LINEBREAK),
        17u32 => Some(SreCatCode::UNI_NOT_LINEBREAK),
        _ => None,
    }
}

impl SreCatCode {
    /// The numeric code of this variant in compiled patterns.
    pub open spec fn spec_code(self) -> u32 {
        match self {
            SreCatCode::DIGIT => 0u32,
            SreCatCode::NOT_DIGIT => 1u32,
            SreCatCode::SPACE => 2u32,
            SreCatCode::NOT_SPACE => 3u32,
            SreCatCode::WORD => 4u32,
            SreCatCode::NOT_WORD => 5u32,
            SreCatCode::LINEBREAK => 6u32,
            SreCatCode::NOT_LINEBREAK => 7u32,
            SreCatCode::LOC_WORD => 8u32,
            SreCatCode::LOC_NOT_WORD => 9u32,
            SreCatCode::UNI_DIGIT => 10u32,
            SreCatCode::UNI_NOT_DIGIT => 11u32,
            SreCatCode::UNI_SPACE => 12u32,
            SreCatCode::UNI_NOT_SPACE => 13u32,
            SreCatCode::UNI_WORD => 14u32,
            SreCatCode::UNI_NOT_WORD => 15u32,
            SreCatCode::UNI_LINEBREAK => 16u32,
            SreCatCode::UNI_NOT_LINEBREAK => 17u32,
        }
    }

    /// The numeric code of this variant in compiled patterns.
    pub fn code(self) -> (r: u32)
        ensures
            r == self.spec_code(),
    {
        match self {
            SreCatCode::DIGIT => 0,
            SreCatCode::NOT_DIGIT => 1,
            SreCatCode::SPACE => 2,
            SreCatCode::NOT_SPACE => 3,
            SreCatCode::WORD => 4,
            SreCatCode::NOT_WORD => 5,
            SreCatCode::LINEBREAK => 6,
            SreCatCode::NOT_LINEBREAK => 7,
            SreCatCode::LOC_WORD => 8,
            SreCatCode::LOC_NOT_WORD => 9,
            SreCatCode::UNI_DIGIT => 10,
            SreCatCode::UNI_NOT_DIGIT => 11,
            SreCatCode::UNI_SPACE => 12,
            SreCatCode::UNI_NOT_SPACE => 13,
            SreCatCode::UNI_WORD => 14,
            SreCatCode::UNI_NOT_WORD => 15,
            SreCatCode::UNI_LINEBREAK => 16,
            SreCatCode::UNI_NOT_LINEBREAK => 17,
        }
    }

    /// Reads a code of a compiled pattern; `None` for a code that names no variant.
    pub fn try_from_code(code: u32) -> (r: Option<SreCatCode>)
        ensures
            r == catcode_of(code),
            r matches Some(v) ==> v.spec_code() == code,
    {
        match code {
            0 => Some(SreCatCode::DIGIT),
            1 => Some(SreCatCode::NOT_DIGIT),
            2 => Some(SreCatCode::SPACE),
            3 => Some(SreCatCode::NOT_SPACE),
            4 => Some(SreCatCode::WORD),
            5 => Some(SreCatCode::NOT_WORD),
            6 => Some(SreCatCode::LINEBREAK),
            7 => Some(SreCatCode::NOT_LINEBREAK),
            8 => Some(SreCatCode::LOC_WORD),
            9 => Some(SreCatCode::LOC_NOT_WORD),
            10 => Some(SreCatCode::UNI_DIGIT),
            11 => Some(SreCatCode::UNI_NOT_DIGIT),
            12 => Some(SreCatCode::UNI_SPACE),
            13 => Some(SreCatCode::UNI_NOT_SPACE),
            14 => Some(SreCatCode::UNI_WORD),
            15 => Some(SreCatCode::UNI_NOT_WORD),
            16 => Some(SreCatCode::UNI_LINEBREAK),
            17 => Some(SreCatCode::UNI_NOT_LINEBREAK),
            _ => None,
        }
    }
}

/// The flags a pattern was compiled with, as a bit set.
#[derive(Clone, Copy, Debug, PartialEq, Eq, Structural)]
pub struct SreFlag {
    pub bits: u16,
}

impl SreFlag {
    pub const TEMPLATE: u16 = 1;
    pub const IGNORECASE: u16 = 2;
    pub const LOCALE: u16 = 4;
    pub const MULTILINE: u16 = 8;
    pub const DOTALL: u16 = 16;
    pub const UNICODE: u16 = 32;
    pub const VERBOSE: u16 = 64;
    pub const DEBUG: u16 = 128;
    pub const ASCII: u16 = 256;
    /// Every defined flag.
    pub const ALL: u16 = 511;

    /// The raw bits.
    pub fn bits(&self) -> (r: u16)
        ensures
            r == self.bits,
    {
        self.bits
    }

    /// The flag set with the given bits, where each of them is a defined flag.
    pub fn from_bits(bits: u16) -> (r: Option<SreFlag>)
        ensures
            r == (if bits & !Self::ALL == 0 {
                Some(SreFlag { bits })
            } else {
                None::<SreFlag>
            }),
    {
        if bits & !Self::ALL == 0 {
            Some(SreFlag { bits })
        } else {
            None
        }
    }

    /// The flag set with exactly the given bits, defined or not.
    pub fn from_bits_retain(bits: u16) -> (r: SreFlag)
        ensures
            r.bits == bits,
    {
        SreFlag { bits }
    }

    /// The empty flag set.
    pub fn empty() -> (r: SreFlag)
        ensures
            r.bits == 0,
    {
        SreFlag { bits: 0 }
    }

    /// Whether every flag of `other` is set in `self`.
    pub fn contains(&self, other: SreFlag) -> (r: bool)
        ensures
            r == (self.bits & other.bits == other.bits),
    {
        self.bits & other.bits == other.bits
    }
}

/// What the `INFO` block of a compiled pattern records, as a bit set.
#[derive(Clone, Copy, Debug, PartialEq, Eq, Structural)]
pub struct SreInfo {
    pub bits: u32,
}

impl SreInfo {
    pub const PREFIX: u32 = 1;
    pub const LITERAL: u32 = 2;
    pub const CHARSET: u32 = 4;
}

/* ---------------- laws ---------------- */

/// Each operation, position assertion and category reads back from its code, and the codes
/// that name one are exactly those below the number of variants.
pub proof fn lemma_codes_read_back(op: SreOpcode, at: SreAtCode, cat: SreCatCode, code: u32)
    ensures
        opcode_of(op.spec_code()) == Some(op),
        atcode_of(at.spec_code()) == Some(at),
        catcode_of(cat.spec_code()) == Some(cat),
        opcode_of(code) is Some <==> code < 43,
        atcode_of(code) is Some <==> code < 12,
        catcode_of(code) is Some <==> code < 18,
{
}

} // verus!
