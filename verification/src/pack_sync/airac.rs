//! The GNG sector/profile filename grammar: a leading area code, then an
//! optional `-YYMMSS-` AIRAC group.

use crate::fir::{
    area_code_chars, fir_code_chars, lffm_code_chars, AreaCode, FirCode, LFFM_CODE,
};
use crate::text::{ascii_upper, ascii_upper_char, eq_ignore_ascii_case, lemma_ascii_upper, opt_view};
use vstd::prelude::*;

verus! {

/// The GNG "combined" sector code for the northern France pack. Its single
/// sector file serves both the Paris (LFFF) and Reims (LFEE) FIRs.
pub const LFXXN_CODE: &'static str = "LFXXN";

/// The combined code `LFXXN`, as a sequence of characters.
pub open spec fn lfxxn_code_chars() -> Seq<char> {
    seq!['L', 'F', 'X', 'X', 'N']
}

/// A character that may end a leading code: `-`, `_`, space or `.`.
pub open spec fn is_code_separator(c: char) -> bool {
    c == '-' || c == '_' || c == ' ' || c == '.'
}

/// `name` starts with `code` (ignoring ASCII case) and the code is followed by
/// nothing or by a separator, so that `LFXXNX-…` does not start with `LFXXN`.
pub open spec fn has_leading_code_chars(name: Seq<char>, code: Seq<char>) -> bool {
    &&& code.len() <= name.len()
    &&& forall|i: int| 0 <= i < code.len() ==> ascii_upper(#[trigger] name[i]) == code[i]
    &&& (name.len() == code.len() || is_code_separator(name[code.len() as int]))
}

/// The FIR a filename starts with, trying the FIRs in their stable order.
pub open spec fn leading_fir_chars(name: Seq<char>) -> Option<FirCode> {
    if has_leading_code_chars(name, fir_code_chars(FirCode::LFBB)) {
        Some(FirCode::LFBB)
    } else if has_leading_code_chars(name, fir_code_chars(FirCode::LFEE)) {
        Some(FirCode::LFEE)
    } else if has_leading_code_chars(name, fir_code_chars(FirCode::LFFF)) {
        Some(FirCode::LFFF)
    } else if has_leading_code_chars(name, fir_code_chars(FirCode::LFMM)) {
        Some(FirCode::LFMM)
    } else if has_leading_code_chars(name, fir_code_chars(FirCode::LFRR)) {
        Some(FirCode::LFRR)
    } else {
        None
    }
}

/// The single area a filename starts with: `LFFM`, else a FIR.
pub open spec fn leading_area_chars(name: Seq<char>) -> Option<AreaCode> {
    if has_leading_code_chars(name, lffm_code_chars()) {
        Some(AreaCode::Lffm)
    } else {
        match leading_fir_chars(name) {
            Some(fir) => Some(AreaCode::Fir(fir)),
            None => None,
        }
    }
}

/// The FIRs a combined code at the start of a filename covers.
pub open spec fn leading_combined_chars(name: Seq<char>) -> Option<Seq<FirCode>> {
    if has_leading_code_chars(name, lfxxn_code_chars()) {
        Some(seq![FirCode::LFFF, FirCode::LFEE])
    } else {
        None
    }
}

/// An ASCII decimal digit; digits of other scripts do not count.
pub open spec fn is_ascii_digit(c: char) -> bool {
    '0' <= c && c <= '9'
}

/// A `-dddddd-` group (six digits between dashes) starts at index `i`.
pub open spec fn airac_group_at(s: Seq<char>, i: int) -> bool {
    &&& 0 <= i
    &&& i + 8 <= s.len()
    &&& s[i] == '-'
    &&& s[i + 7] == '-'
    &&& forall|k: int| 1 <= k <= 6 ==> is_ascii_digit(#[trigger] s[i + k])
}

/// Where the leftmost `-dddddd-` group at or after index `i` starts.
pub open spec fn first_airac_group_from(s: Seq<char>, i: int) -> Option<int>
    decreases s.len() - i,
{
    if i < 0 || i + 8 > s.len() {
        None
    } else if airac_group_at(s, i) {
        Some(i)
    } else {
        first_airac_group_from(s, i + 1)
    }
}

/// The AIRAC cycle of a filename: the first four digits of its leftmost
/// `-dddddd-` group, if it has one.
pub open spec fn airac_cycle_chars(s: Seq<char>) -> Option<Seq<char>> {
    match first_airac_group_from(s, 0) {
        Some(i) => Some(s.subrange(i + 1, i + 5)),
        None => None,
    }
}

/// The areas a sector filename covers: a combined code's FIRs, else the
/// single leading area.
pub open spec fn sector_target_areas(name: Seq<char>) -> Option<Seq<AreaCode>> {
    match leading_combined_chars(name) {
        Some(firs) => Some(firs.map_values(|f: FirCode| AreaCode::Fir(f))),
        None => match leading_area_chars(name) {
            Some(area) => Some(seq![area]),
            None => None,
        },
    }
}

/// Whether `name` starts with `code` followed by either nothing, a separator
/// (`-`, `_`, ` `) or a dot (for `LFBB.sct`-style names), ignoring ASCII case.
fn has_leading_code(name: &str, code: &str) -> (r: bool)
    ensures
        r == has_leading_code_chars(name@, code@),
{
    let n = name.unicode_len();
    let m = code.unicode_len();
    if m > n {
        return false;
    }
    let mut i: usize = 0;
    while i < m
        invariant
            n == name@.len(),
            m == code@.len(),
            m <= n,
            0 <= i <= m,
            forall|k: int| 0 <= k < i ==> ascii_upper(#[trigger] name@[k]) == code@[k],
        decreases m - i,
    {
        if ascii_upper_char(name.get_char(i)) != code.get_char(i) {
            return false;
        }
        i = i + 1;
    }
    if m == n {
        return true;
    }
    let c = name.get_char(m);
    c == '-' || c == '_' || c == ' ' || c == '.'
}

fn leading_fir_code(name: &str) -> (r: Option<FirCode>)
    ensures
        r == leading_fir_chars(name@),
{
    if has_leading_code(name, FirCode::LFBB.as_str()) {
        Some(FirCode::LFBB)
    } else if has_leading_code(name, FirCode::LFEE.as_str()) {
        Some(FirCode::LFEE)
    } else if has_leading_code(name, FirCode::LFFF.as_str()) {
        Some(FirCode::LFFF)
    } else if has_leading_code(name, FirCode::LFMM.as_str()) {
        Some(FirCode::LFMM)
    } else if has_leading_code(name, FirCode::LFRR.as_str()) {
        Some(FirCode::LFRR)
    } else {
        None
    }
}

/// The single area a `<AREA>-…` / `<AREA>.…` filename targets: a FIR, or the
/// military/legacy `LFFM` area, which ships its own sector file just like a FIR.
pub fn leading_area_code(name: &str) -> (r: Option<AreaCode>)
    ensures
        r == leading_area_chars(name@),
{
    proof {
        reveal_strlit("LFFM");
    }
    if has_leading_code(name, LFFM_CODE) {
        return Some(AreaCode::Lffm);
    }
    match leading_fir_code(name) {
        Some(fir) => Some(AreaCode::Fir(fir)),
        None => None,
    }
}

/// If `name` starts with a known combined code followed by a separator (or is
/// exactly the code), the FIRs it covers. Accepts both the GNG sector filename
/// (`LFXXN-Paris-Reims_…`) and the bare package folder segment (`LFXXN`).
pub fn leading_combined_code(name: &str) -> (r: Option<&'static [FirCode]>)
    ensures
        match (r, leading_combined_chars(name@)) {
            (Some(firs), Some(expected)) => firs@ == expected,
            (None, None) => true,
            _ => false,
        },
{
    proof {
        reveal_strlit("LFXXN");
    }
    if has_leading_code(name, LFXXN_CODE) {
        let firs: &'static [FirCode] = &[FirCode::LFFF, FirCode::LFEE];
        assert(firs@ =~= seq![FirCode::LFFF, FirCode::LFEE]);
        Some(firs)
    } else {
        None
    }
}

fn is_ascii_digit_char(c: char) -> (r: bool)
    ensures
        r == is_ascii_digit(c),
{
    '0' <= c && c <= '9'
}

/// Whether a `-dddddd-` group starts at index `i` of `name`.
fn airac_group_starts_at(name: &str, i: usize) -> (r: bool)
    requires
        i + 8 <= name@.len(),
    ensures
        r == airac_group_at(name@, i as int),
{
    let n = name.unicode_len();
    if name.get_char(i) != '-' || name.get_char(i + 7) != '-' {
        return false;
    }
    let mut k: usize = 1;
    while k <= 6
        invariant
            n == name@.len(),
            i + 8 <= n,
            1 <= k <= 7,
            forall|j: int| 1 <= j < k ==> is_ascii_digit(#[trigger] name@[i + j]),
        decreases 7 - k,
    {
        if !is_ascii_digit_char(name.get_char(i + k)) {
            return false;
        }
        k = k + 1;
    }
    true
}

/// Take the first 4 digits of a six-digit group as the AIRAC cycle code
/// (YYMM); the last two digits encode an AIRAC sub-revision.
fn cycle_from_six_digits(six: &str) -> (r: String)
    requires
        six@.len() == 6,
        forall|k: int| 0 <= k < 6 ==> is_ascii_digit(#[trigger] six@[k]),
    ensures
        r@ == six@.take(4),
{
    six.substring_char(0, 4).to_owned()
}

/// Extract the AIRAC cycle: the first 6-digit numeric group found between
/// dashes, of which the first 4 digits (YYMM) are the cycle. `None` when no
/// such group is present (e.g. a bare `LFBB.sct`). The `_`-prefixed 14-digit
/// creation timestamp in newer GNG names is not delimited by dashes, so it is
/// never mistaken for the cycle.
///
/// Only the ASCII digits `0`-`9` count as digits: an AIRAC cycle is an ASCII
/// `YYMM` code, and decimal digits of other scripts (Arabic-Indic, fullwidth,
/// Devanagari, ...) never form a cycle. The grammar is scanned here, in
/// verified code, on purpose rather than handed to a regular-expression
/// engine, whose `\d` would also take those other digits.
fn parse_airac_cycle(name: &str) -> (r: Option<String>)
    ensures
        opt_view(r) == airac_cycle_chars(name@),
{
    let n = name.unicode_len();
    if n < 8 {
        return None;
    }
    let mut i: usize = 0;
    while i <= n - 8
        invariant
            n == name@.len(),
            n >= 8,
            first_airac_group_from(name@, 0) == first_airac_group_from(name@, i as int),
        decreases n - i,
    {
        if airac_group_starts_at(name, i) {
            let six = name.substring_char(i + 1, i + 7);
            assert forall|k: int| 0 <= k < 6 implies is_ascii_digit(#[trigger] six@[k]) by {
                assert(six@[k] == name@[(i as int) + (k + 1)]);
            }
            let cycle = cycle_from_six_digits(six);
            assert(cycle@ =~= name@.subrange(i + 1, i + 5));
            return Some(cycle);
        }
        i = i + 1;
    }
    None
}

/// Parse a GNG-style sector/profile filename and extract the FIR code and
/// AIRAC cycle if present.
///
/// Examples:
///   "LFBB-Bordeaux-260301-0003.sct"  → (LFBB, "2603")
///   "LFEE-Reims-260301-0003.ese"     → (LFEE, "2603")
///   "LFFM-Military_…-260801-0001.sct" → None (LFFM is an area, not a FIR)
///   "garbage.sct"                    → None
pub fn parse_gng_sector_filename(name: &str) -> (r: Option<(FirCode, Option<String>)>)
    ensures
        match r {
            Some((fir, cycle)) => leading_fir_chars(name@) == Some(fir) && opt_view(cycle)
                == airac_cycle_chars(name@),
            None => leading_fir_chars(name@) is None,
        },
{
    let fir = match leading_fir_code(name) {
        Some(fir) => fir,
        None => return None,
    };
    Some((fir, parse_airac_cycle(name)))
}

/// Parse a GNG sector/profile filename into the set of areas it covers plus
/// the AIRAC cycle. A combined code such as `LFXXN` resolves to several FIRs
/// (`LFXXN-Paris-Reims_…` → LFFF + LFEE), the non-FIR `LFFM` area is
/// recognised too, and a regular `<AREA>-…` filename resolves to that area.
pub fn parse_gng_sector_target(name: &str) -> (r: Option<(Vec<AreaCode>, Option<String>)>)
    ensures
        match r {
            Some((areas, cycle)) => sector_target_areas(name@) == Some(areas@) && opt_view(cycle)
                == airac_cycle_chars(name@),
            None => sector_target_areas(name@) is None,
        },
{
    let areas: Vec<AreaCode> = match leading_combined_code(name) {
        Some(firs) => {
            let mut areas: Vec<AreaCode> = Vec::new();
            let mut i: usize = 0;
            while i < firs.len()
                invariant
                    0 <= i <= firs@.len(),
                    areas@ =~= firs@.take(i as int).map_values(|f: FirCode| AreaCode::Fir(f)),
                decreases firs@.len() - i,
            {
                areas.push(AreaCode::Fir(firs[i]));
                assert(firs@.take(i + 1) =~= firs@.take(i as int).push(firs@[i as int]));
                i = i + 1;
            }
            assert(firs@.take(firs@.len() as int) =~= firs@);
            areas
        },
        None => match leading_area_code(name) {
            Some(area) => {
                let mut areas: Vec<AreaCode> = Vec::new();
                areas.push(area);
                assert(areas@ =~= seq![area]);
                areas
            },
            None => return None,
        },
    };
    Some((areas, parse_airac_cycle(name)))
}

proof fn lemma_first_airac_group_from(s: Seq<char>, i: int)
    requires
        0 <= i,
    ensures
        match first_airac_group_from(s, i) {
            Some(j) => i <= j && airac_group_at(s, j) && forall|k: int|
                i <= k < j ==> !airac_group_at(s, k),
            None => forall|k: int| i <= k ==> !airac_group_at(s, k),
        },
    decreases s.len() - i,
{
    if i + 8 <= s.len() && !airac_group_at(s, i) {
        lemma_first_airac_group_from(s, i + 1);
    }
}

/// The AIRAC cycle comes from the leftmost `-dddddd-` group: when a cycle is
/// found, the name holds such a group at some index `i`, none before it, and
/// the cycle is the group's first four digits; when none is found, the name
/// holds no such group at all. This is why the `_`-prefixed creation
/// timestamp of newer names is never taken for the cycle.
pub proof fn lemma_cycle_is_leftmost_dash_group(name: Seq<char>)
    ensures
        match airac_cycle_chars(name) {
            Some(cycle) => exists|i: int|
                {
                    &&& #[trigger] airac_group_at(name, i)
                    &&& cycle == name.subrange(i + 1, i + 5)
                    &&& forall|k: int| 0 <= k < i ==> !airac_group_at(name, k)
                },
            None => forall|i: int| !airac_group_at(name, i),
        },
{
    lemma_first_airac_group_from(name, 0);
    if let Some(i) = first_airac_group_from(name, 0) {
        assert(airac_group_at(name, i));
    }
}

/// A cycle, when found, is four ASCII digits.
pub proof fn lemma_cycle_is_four_digits(name: Seq<char>)
    ensures
        airac_cycle_chars(name) matches Some(cycle) ==> cycle.len() == 4 && forall|k: int|
            0 <= k < 4 ==> is_ascii_digit(#[trigger] cycle[k]),
{
    lemma_first_airac_group_from(name, 0);
    if let Some(i) = first_airac_group_from(name, 0) {
        let cycle = name.subrange(i + 1, i + 5);
        assert forall|k: int| 0 <= k < 4 implies is_ascii_digit(#[trigger] cycle[k]) by {
            assert(cycle[k] == name[i + (k + 1)]);
        }
    }
}

/// `LFFM` is not a FIR: a name that starts with the `LFFM` code starts with
/// no FIR code, so the FIR-only parser refuses it while the area parser
/// resolves it to `Lffm`.
pub proof fn lemma_lffm_is_not_a_fir(name: Seq<char>)
    requires
        has_leading_code_chars(name, lffm_code_chars()),
    ensures
        leading_fir_chars(name) is None,
        leading_area_chars(name) == Some(AreaCode::Lffm),
{
    assert(ascii_upper(name[2]) == 'F');
    assert(ascii_upper(name[3]) == 'M');
}

/// The FIR-only parser and the area parser agree on FIRs: a name starts with
/// the code of FIR `fir` exactly when its leading area is `Fir(fir)`.
pub proof fn lemma_fir_parser_agrees_with_area_parser(name: Seq<char>, fir: FirCode)
    ensures
        leading_fir_chars(name) == Some(fir) <==> leading_area_chars(name) == Some(
            AreaCode::Fir(fir),
        ),
{
    if has_leading_code_chars(name, lffm_code_chars()) {
        lemma_lffm_is_not_a_fir(name);
    }
}

/// The combined `LFXXN` code is not a single FIR: a name that starts with it
/// starts with no FIR code and with no area code.
pub proof fn lemma_combined_code_is_not_a_single_area(name: Seq<char>)
    requires
        has_leading_code_chars(name, lfxxn_code_chars()),
    ensures
        leading_fir_chars(name) is None,
        leading_area_chars(name) is None,
        sector_target_areas(name) == Some(
            seq![AreaCode::Fir(FirCode::LFFF), AreaCode::Fir(FirCode::LFEE)],
        ),
{
    assert(ascii_upper(name[2]) == 'X');
    let areas = seq![FirCode::LFFF, FirCode::LFEE].map_values(|f: FirCode| AreaCode::Fir(f));
    assert(areas =~= seq![AreaCode::Fir(FirCode::LFFF), AreaCode::Fir(FirCode::LFEE)]);
}

/// A code only matches when followed by nothing or a separator: a name in
/// which the code is followed by a letter or a digit (`LFXXNX-…`,
/// `LFFMX-…`) does not start with that code.
pub proof fn lemma_code_needs_separator(name: Seq<char>, code: Seq<char>)
    requires
        code.len() < name.len(),
        ('A' <= name[code.len() as int] && name[code.len() as int] <= 'Z') || ('a' <= name[code.len() as int]
            && name[code.len() as int] <= 'z') || is_ascii_digit(name[code.len() as int]),
    ensures
        !has_leading_code_chars(name, code),
{
}

/// A bare area code, in any ASCII case, names its own area.
pub proof fn lemma_bare_code_names_its_area(area: AreaCode)
    ensures
        leading_area_chars(area_code_chars(area)) == Some(area),
        sector_target_areas(area_code_chars(area)) == Some(seq![area]),
{
    let s = area_code_chars(area);
    assert(!has_leading_code_chars(s, lfxxn_code_chars()));
    match area {
        AreaCode::Lffm => {},
        AreaCode::Fir(fir) => {
            assert(!has_leading_code_chars(s, lffm_code_chars()));
            assert(has_leading_code_chars(s, fir_code_chars(fir)));
        },
    }
}

proof fn lemma_same_char_class(a: Seq<char>, b: Seq<char>, k: int)
    requires
        eq_ignore_ascii_case(a, b),
        0 <= k < a.len(),
    ensures
        is_code_separator(a[k]) <==> is_code_separator(b[k]),
        a[k] == '-' <==> b[k] == '-',
        is_ascii_digit(a[k]) ==> a[k] == b[k],
        is_ascii_digit(b[k]) ==> a[k] == b[k],
{
    assert(ascii_upper(a[k]) == ascii_upper(b[k]));
    lemma_ascii_upper(a[k]);
    lemma_ascii_upper(b[k]);
}

proof fn lemma_leading_code_ignores_case(a: Seq<char>, b: Seq<char>, code: Seq<char>)
    requires
        eq_ignore_ascii_case(a, b),
    ensures
        has_leading_code_chars(a, code) == has_leading_code_chars(b, code),
{
    if code.len() < a.len() {
        lemma_same_char_class(a, b, code.len() as int);
    }
    if has_leading_code_chars(a, code) {
        assert forall|i: int| 0 <= i < code.len() implies ascii_upper(#[trigger] b[i]) == code[i] by {
            assert(ascii_upper(a[i]) == ascii_upper(b[i]));
        }
    }
    if has_leading_code_chars(b, code) {
        assert forall|i: int| 0 <= i < code.len() implies ascii_upper(#[trigger] a[i]) == code[i] by {
            assert(ascii_upper(a[i]) == ascii_upper(b[i]));
        }
    }
}

proof fn lemma_airac_group_ignores_case(a: Seq<char>, b: Seq<char>, i: int)
    requires
        eq_ignore_ascii_case(a, b),
    ensures
        airac_group_at(a, i) == airac_group_at(b, i),
        airac_group_at(a, i) ==> a.subrange(i + 1, i + 5) == b.subrange(i + 1, i + 5),
{
    if 0 <= i && i + 8 <= a.len() {
        lemma_same_char_class(a, b, i);
        lemma_same_char_class(a, b, i + 7);
        if airac_group_at(a, i) {
            assert forall|k: int| 1 <= k <= 6 implies is_ascii_digit(#[trigger] b[i + k]) by {
                lemma_same_char_class(a, b, i + k);
            }
        }
        if airac_group_at(b, i) {
            assert forall|k: int| 1 <= k <= 6 implies is_ascii_digit(#[trigger] a[i + k]) by {
                lemma_same_char_class(a, b, i + k);
            }
        }
        if airac_group_at(a, i) {
            assert forall|k: int| 0 <= k < 4 implies #[trigger] a.subrange(i + 1, i + 5)[k]
                == b.subrange(i + 1, i + 5)[k] by {
                lemma_same_char_class(a, b, i + (k + 1));
                assert(is_ascii_digit(a[i + (k + 1)]));
            }
            assert(a.subrange(i + 1, i + 5) =~= b.subrange(i + 1, i + 5));
        }
    }
}

proof fn lemma_first_airac_group_ignores_case(a: Seq<char>, b: Seq<char>, i: int)
    requires
        eq_ignore_ascii_case(a, b),
    ensures
        first_airac_group_from(a, i) == first_airac_group_from(b, i),
    decreases a.len() - i,
{
    lemma_airac_group_ignores_case(a, b, i);
    if 0 <= i && i + 8 <= a.len() && !airac_group_at(a, i) {
        lemma_first_airac_group_ignores_case(a, b, i + 1);
    }
}

/// Parsing ignores ASCII case: two names that differ only in the case of
/// ASCII letters (`lfmm-Marseille-…` and `LFMM-MARSEILLE-…`) lead to the same
/// FIR, the same area, the same target areas and the same AIRAC cycle.
pub proof fn lemma_parse_ignores_ascii_case(a: Seq<char>, b: Seq<char>)
    requires
        eq_ignore_ascii_case(a, b),
    ensures
        leading_fir_chars(a) == leading_fir_chars(b),
        leading_area_chars(a) == leading_area_chars(b),
        leading_combined_chars(a) == leading_combined_chars(b),
        sector_target_areas(a) == sector_target_areas(b),
        airac_cycle_chars(a) == airac_cycle_chars(b),
{
    lemma_leading_code_ignores_case(a, b, fir_code_chars(FirCode::LFBB));
    lemma_leading_code_ignores_case(a, b, fir_code_chars(FirCode::LFEE));
    lemma_leading_code_ignores_case(a, b, fir_code_chars(FirCode::LFFF));
    lemma_leading_code_ignores_case(a, b, fir_code_chars(FirCode::LFMM));
    lemma_leading_code_ignores_case(a, b, fir_code_chars(FirCode::LFRR));
    lemma_leading_code_ignores_case(a, b, lffm_code_chars());
    lemma_leading_code_ignores_case(a, b, lfxxn_code_chars());
    lemma_first_airac_group_ignores_case(a, b, 0);
    if let Some(i) = first_airac_group_from(a, 0) {
        lemma_first_airac_group_from(a, 0);
        lemma_airac_group_ignores_case(a, b, i);
    }
}

/// The two parsers agree on FIR names: a name that the FIR parser reads as
/// FIR `fir` is read by the target parser as covering exactly that FIR (and
/// both give it the same cycle, the same function of the name).
pub proof fn lemma_target_parser_extends_fir_parser(name: Seq<char>, fir: FirCode)
    requires
        leading_fir_chars(name) == Some(fir),
    ensures
        sector_target_areas(name) == Some(seq![AreaCode::Fir(fir)]),
{
    if has_leading_code_chars(name, lfxxn_code_chars()) {
        lemma_combined_code_is_not_a_single_area(name);
    }
    lemma_fir_parser_agrees_with_area_parser(name, fir);
}

proof fn lemma_group_shape(s: Seq<char>, i: int)
    ensures
        airac_group_at(s, i) <==> {
            &&& 0 <= i
            &&& i + 8 <= s.len()
            &&& s[i] == '-'
            &&& s[i + 7] == '-'
            &&& forall|k: int| 1 <= k <= 6 ==> '0' <= #[trigger] s[i + k] && s[i + k] <= '9'
        },
{
}

/// The cycle is found from the first run of six ASCII digits `0`-`9`
/// between two dashes: a name holding such a run at some index `i` always
/// has a cycle, taken from such a run at an index no later than `i`; a name
/// with a cycle holds such a run, the cycle is its first four digits and no
/// such run starts earlier; a name with no cycle holds no such run.
pub proof fn lemma_cycle_is_first_six_digit_run(s: Seq<char>)
    ensures
        forall|i: int|
            #![trigger s[i + 7]]
            0 <= i && i + 8 <= s.len() && s[i] == '-' && s[i + 7] == '-' && (forall|k: int|
                1 <= k <= 6 ==> '0' <= #[trigger] s[i + k] && s[i + k] <= '9') ==> exists|j: int|
                #![trigger s[j + 7]]
                0 <= j <= i && s[j] == '-' && s[j + 7] == '-' && (forall|k: int|
                    1 <= k <= 6 ==> '0' <= #[trigger] s[j + k] && s[j + k] <= '9')
                    && airac_cycle_chars(s) == Some(s.subrange(j + 1, j + 5)),
        match airac_cycle_chars(s) {
            Some(c) => exists|j: int|
                #![trigger s[j + 7]]
                {
                    &&& 0 <= j && j + 8 <= s.len() && s[j] == '-' && s[j + 7] == '-'
                    &&& forall|k: int| 1 <= k <= 6 ==> '0' <= #[trigger] s[j + k] && s[j + k] <= '9'
                    &&& c == s.subrange(j + 1, j + 5)
                    &&& forall|m: int|
                        #![trigger s[m + 7]]
                        0 <= m < j ==> !(s[m] == '-' && s[m + 7] == '-' && forall|k: int|
                            1 <= k <= 6 ==> '0' <= #[trigger] s[m + k] && s[m + k] <= '9')
                },
            None => forall|i: int|
                0 <= i && i + 8 <= s.len() ==> !(s[i] == '-' && #[trigger] s[i + 7] == '-'
                    && forall|k: int| 1 <= k <= 6 ==> '0' <= #[trigger] s[i + k] && s[i + k] <= '9'),
        },
{
    lemma_first_airac_group_from(s, 0);
    match first_airac_group_from(s, 0) {
        Some(j) => {
            lemma_group_shape(s, j);
            assert forall|i: int|
                #![trigger s[i + 7]]
                0 <= i && i + 8 <= s.len() && s[i] == '-' && s[i + 7] == '-' && (forall|k: int|
                    1 <= k <= 6 ==> '0' <= #[trigger] s[i + k] && s[i + k] <= '9') implies exists|
                j2: int|
                #![trigger s[j2 + 7]]
                0 <= j2 <= i && s[j2] == '-' && s[j2 + 7] == '-' && (forall|k: int|
                    1 <= k <= 6 ==> '0' <= #[trigger] s[j2 + k] && s[j2 + k] <= '9')
                    && airac_cycle_chars(s) == Some(s.subrange(j2 + 1, j2 + 5)) by {
                lemma_group_shape(s, i);
                assert(airac_group_at(s, i));
                assert(j <= i);
            }
            assert forall|m: int| #![trigger s[m + 7]] 0 <= m < j implies !(s[m] == '-' && s[m + 7] == '-' && forall|
                k: int|
                1 <= k <= 6 ==> '0' <= #[trigger] s[m + k] && s[m + k] <= '9') by {
                lemma_group_shape(s, m);
                assert(!airac_group_at(s, m));
            }
        },
        None => {
            assert forall|i: int| 0 <= i && i + 8 <= s.len() implies !(s[i] == '-' && #[trigger] s[i
                + 7] == '-' && forall|k: int|
                1 <= k <= 6 ==> '0' <= #[trigger] s[i + k] && s[i + k] <= '9') by {
                lemma_group_shape(s, i);
                assert(!airac_group_at(s, i));
            }
            assert forall|i: int|
                #![trigger s[i + 7]]
                0 <= i && i + 8 <= s.len() && s[i] == '-' && s[i + 7] == '-' && (forall|k: int|
                    1 <= k <= 6 ==> '0' <= #[trigger] s[i + k] && s[i + k] <= '9') implies false by {
                lemma_group_shape(s, i);
                assert(!airac_group_at(s, i));
            }
        },
    }
}

/// A name leads with an area exactly when it starts with that area's code
/// (ignoring ASCII case) followed by nothing or by one of `-`, `_`, space or
/// `.`: whatever area is found, the name starts that way, and a code followed
/// by such a separator and anything at all is always found.
pub proof fn lemma_leading_area_is_code_then_separator(name: Seq<char>, area: AreaCode, c: char, rest: Seq<char>)
    ensures
        leading_area_chars(name) matches Some(a) ==> {
            &&& name.len() >= 4
            &&& forall|i: int| 0 <= i < 4 ==> ascii_upper(#[trigger] name[i]) == area_code_chars(a)[i]
            &&& (name.len() == 4 || name[4] == '-' || name[4] == '_' || name[4] == ' ' || name[4] == '.')
        },
        (c == '-' || c == '_' || c == ' ' || c == '.') ==> leading_area_chars(
            area_code_chars(area) + seq![c] + rest,
        ) == Some(area),
{
    let s = area_code_chars(area) + seq![c] + rest;
    if c == '-' || c == '_' || c == ' ' || c == '.' {
        assert(s[4] == c);
        assert(s[0] == 'L' && s[1] == 'F');
        assert(s[2] == area_code_chars(area)[2] && s[3] == area_code_chars(area)[3]);
        assert(!has_leading_code_chars(s, lfxxn_code_chars()));
        match area {
            AreaCode::Lffm => {
                assert(has_leading_code_chars(s, lffm_code_chars()));
            },
            AreaCode::Fir(fir) => {
                assert(!has_leading_code_chars(s, lffm_code_chars()));
                assert(has_leading_code_chars(s, fir_code_chars(fir)));
            },
        }
    }
}

} // verus!
