//! Area codes: the five French FIRs and the military/legacy `LFFM` area.

use crate::text::{eq_ignore_ascii_case, eq_ignore_ascii_case_str};
use vstd::prelude::*;

verus! {

/// One of the five French flight information regions.
#[derive(Debug, Clone, Copy, PartialEq, Eq, Structural, PartialOrd, Ord, Hash)]
pub enum FirCode {
    LFBB,
    LFEE,
    LFFF,
    LFMM,
    LFRR,
}

/// The military / legacy area. Not an ICAO FIR, but it owns an area folder and a
/// sector file (`LFXX/Sectors/LFFM.sct`) exactly like a FIR does.
pub const LFFM_CODE: &'static str = "LFFM";

/// The code of the `LFFM` area, as a sequence of characters.
pub open spec fn lffm_code_chars() -> Seq<char> {
    seq!['L', 'F', 'F', 'M']
}

/// The four-letter ICAO code of a FIR, as a sequence of characters.
pub open spec fn fir_code_chars(fir: FirCode) -> Seq<char> {
    match fir {
        FirCode::LFBB => seq!['L', 'F', 'B', 'B'],
        FirCode::LFEE => seq!['L', 'F', 'E', 'E'],
        FirCode::LFFF => seq!['L', 'F', 'F', 'F'],
        FirCode::LFMM => seq!['L', 'F', 'M', 'M'],
        FirCode::LFRR => seq!['L', 'F', 'R', 'R'],
    }
}

/// The FIR whose code equals `s` up to ASCII case.
pub open spec fn parse_fir_chars(s: Seq<char>) -> Option<FirCode> {
    if eq_ignore_ascii_case(s, fir_code_chars(FirCode::LFBB)) {
        Some(FirCode::LFBB)
    } else if eq_ignore_ascii_case(s, fir_code_chars(FirCode::LFEE)) {
        Some(FirCode::LFEE)
    } else if eq_ignore_ascii_case(s, fir_code_chars(FirCode::LFFF)) {
        Some(FirCode::LFFF)
    } else if eq_ignore_ascii_case(s, fir_code_chars(FirCode::LFMM)) {
        Some(FirCode::LFMM)
    } else if eq_ignore_ascii_case(s, fir_code_chars(FirCode::LFRR)) {
        Some(FirCode::LFRR)
    } else {
        None
    }
}

/// An installable area: one of the French FIRs, or `LFFM`.
///
/// `LFFM` is deliberately kept out of [`FirCode`]: it is not a FIR. It is,
/// however, laid out like one: its own folder, its own `.prf` and its own
/// sector file. Anything keyed on "which area does this file belong to" uses
/// this type rather than `FirCode`.
#[derive(Debug, Clone, Copy, PartialEq, Eq, Structural, PartialOrd, Ord, Hash)]
pub enum AreaCode {
    Fir(FirCode),
    Lffm,
}

/// The code of an area, as a sequence of characters.
pub open spec fn area_code_chars(area: AreaCode) -> Seq<char> {
    match area {
        AreaCode::Fir(fir) => fir_code_chars(fir),
        AreaCode::Lffm => lffm_code_chars(),
    }
}

/// The area whose code equals `s` up to ASCII case.
pub open spec fn parse_area_chars(s: Seq<char>) -> Option<AreaCode> {
    if eq_ignore_ascii_case(s, lffm_code_chars()) {
        Some(AreaCode::Lffm)
    } else {
        match parse_fir_chars(s) {
            Some(fir) => Some(AreaCode::Fir(fir)),
            None => None,
        }
    }
}

impl FirCode {
    /// Every FIR, in a stable order.
    pub const ALL: [FirCode; 5] = [
        FirCode::LFBB,
        FirCode::LFEE,
        FirCode::LFFF,
        FirCode::LFMM,
        FirCode::LFRR,
    ];

    /// The ICAO code of this FIR.
    pub fn as_str(self) -> (s: &'static str)
        ensures
            s@ == fir_code_chars(self),
    {
        match self {
            FirCode::LFBB => {
                proof {
                    reveal_strlit("LFBB");
                }
                "LFBB"
            },
            FirCode::LFEE => {
                proof {
                    reveal_strlit("LFEE");
                }
                "LFEE"
            },
            FirCode::LFFF => {
                proof {
                    reveal_strlit("LFFF");
                }
                "LFFF"
            },
            FirCode::LFMM => {
                proof {
                    reveal_strlit("LFMM");
                }
                "LFMM"
            },
            FirCode::LFRR => {
                proof {
                    reveal_strlit("LFRR");
                }
                "LFRR"
            },
        }
    }

    /// The FIR named by `s`, ignoring ASCII case (`"lfbb"` is `LFBB`).
    pub fn from_code(s: &str) -> (r: Option<FirCode>)
        ensures
            r == parse_fir_chars(s@),
    {
        if eq_ignore_ascii_case_str(s, FirCode::LFBB.as_str()) {
            Some(FirCode::LFBB)
        } else if eq_ignore_ascii_case_str(s, FirCode::LFEE.as_str()) {
            Some(FirCode::LFEE)
        } else if eq_ignore_ascii_case_str(s, FirCode::LFFF.as_str()) {
            Some(FirCode::LFFF)
        } else if eq_ignore_ascii_case_str(s, FirCode::LFMM.as_str()) {
            Some(FirCode::LFMM)
        } else if eq_ignore_ascii_case_str(s, FirCode::LFRR.as_str()) {
            Some(FirCode::LFRR)
        } else {
            None
        }
    }

    /// The text shown for this FIR: its code.
    pub fn to_string(self) -> (s: String)
        ensures
            s@ == fir_code_chars(self),
    {
        self.as_str().to_owned()
    }
}

impl std::str::FromStr for FirCode {
    type Err = ();

    fn from_str(s: &str) -> (r: Result<Self, Self::Err>)
        ensures
            r == match parse_fir_chars(s@) {
                Some(fir) => Ok(fir),
                None => Err(()),
            },
    {
        match FirCode::from_code(s) {
            Some(fir) => Ok(fir),
            None => Err(()),
        }
    }
}

impl AreaCode {
    /// Every area, in a stable order: the five FIRs, then `LFFM`.
    pub fn all() -> (r: [AreaCode; 6])
        ensures
            r@ == seq![
                AreaCode::Fir(FirCode::LFBB),
                AreaCode::Fir(FirCode::LFEE),
                AreaCode::Fir(FirCode::LFFF),
                AreaCode::Fir(FirCode::LFMM),
                AreaCode::Fir(FirCode::LFRR),
                AreaCode::Lffm,
            ],
    {
        let r = [
            AreaCode::Fir(FirCode::LFBB),
            AreaCode::Fir(FirCode::LFEE),
            AreaCode::Fir(FirCode::LFFF),
            AreaCode::Fir(FirCode::LFMM),
            AreaCode::Fir(FirCode::LFRR),
            AreaCode::Lffm,
        ];
        assert(r@ =~= seq![
            AreaCode::Fir(FirCode::LFBB),
            AreaCode::Fir(FirCode::LFEE),
            AreaCode::Fir(FirCode::LFFF),
            AreaCode::Fir(FirCode::LFMM),
            AreaCode::Fir(FirCode::LFRR),
            AreaCode::Lffm,
        ]);
        r
    }

    /// The code of this area.
    pub fn as_str(self) -> (s: &'static str)
        ensures
            s@ == area_code_chars(self),
    {
        match self {
            AreaCode::Fir(fir) => fir.as_str(),
            AreaCode::Lffm => {
                proof {
                    reveal_strlit("LFFM");
                }
                LFFM_CODE
            },
        }
    }

    /// The area named by `s`, ignoring ASCII case (`"lffm"` is `Lffm`).
    pub fn from_code(s: &str) -> (r: Option<AreaCode>)
        ensures
            r == parse_area_chars(s@),
    {
        if eq_ignore_ascii_case_str(s, AreaCode::Lffm.as_str()) {
            return Some(AreaCode::Lffm);
        }
        match FirCode::from_code(s) {
            Some(fir) => Some(AreaCode::Fir(fir)),
            None => None,
        }
    }

    /// The text shown for this area: its code.
    pub fn to_string(self) -> (s: String)
        ensures
            s@ == area_code_chars(self),
    {
        self.as_str().to_owned()
    }
}

impl std::str::FromStr for AreaCode {
    type Err = ();

    fn from_str(s: &str) -> (r: Result<Self, Self::Err>)
        ensures
            r == match parse_area_chars(s@) {
                Some(area) => Ok(area),
                None => Err(()),
            },
    {
        match AreaCode::from_code(s) {
            Some(area) => Ok(area),
            None => Err(()),
        }
    }
}

impl From<FirCode> for AreaCode {
    fn from(fir: FirCode) -> (r: AreaCode) {
        AreaCode::Fir(fir)
    }
}

impl vstd::std_specs::convert::FromSpecImpl<FirCode> for AreaCode {
    open spec fn obeys_from_spec() -> bool {
        true
    }

    open spec fn from_spec(fir: FirCode) -> AreaCode {
        AreaCode::Fir(fir)
    }
}

/// Every code reads back as its own area (and every FIR code as its own
/// FIR), whatever the ASCII case it is written in; `LFFM` reads back as no FIR.
pub proof fn lemma_code_round_trip(area: AreaCode, s: Seq<char>)
    requires
        eq_ignore_ascii_case(s, area_code_chars(area)),
    ensures
        parse_area_chars(s) == Some(area),
        match area {
            AreaCode::Fir(fir) => parse_fir_chars(s) == Some(fir),
            AreaCode::Lffm => parse_fir_chars(s) is None,
        },
{
    assert(crate::text::ascii_upper(s[0]) == 'L');
    assert(crate::text::ascii_upper(s[1]) == 'F');
    assert(crate::text::ascii_upper(s[2]) == area_code_chars(area)[2]);
    assert(crate::text::ascii_upper(s[3]) == area_code_chars(area)[3]);
}

/// Only codes read back: whatever `s` reads back as, `s` is that area's (or
/// that FIR's) code up to ASCII case.
pub proof fn lemma_only_codes_read_back(s: Seq<char>)
    ensures
        parse_area_chars(s) matches Some(area) ==> eq_ignore_ascii_case(s, area_code_chars(area)),
        parse_fir_chars(s) matches Some(fir) ==> eq_ignore_ascii_case(s, fir_code_chars(fir)),
{
}

} // verus!
