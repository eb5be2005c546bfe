use controller_pack_core::fir::{AreaCode, FirCode};
use controller_pack_core::pack_sync::airac::{
    leading_area_code, leading_combined_code, parse_gng_sector_filename, parse_gng_sector_target,
    LFXXN_CODE,
};

#[test]
fn parses_standard_gng_sector_filename() {
    let (fir, cycle) = parse_gng_sector_filename("LFBB-Bordeaux-260301-0003.sct").unwrap();
    assert_eq!(fir, FirCode::LFBB);
    assert_eq!(cycle.as_deref(), Some("2603"));
}

#[test]
fn parses_ese_extension() {
    let (fir, _) = parse_gng_sector_filename("LFEE-Reims-260301-0003.ese").unwrap();
    assert_eq!(fir, FirCode::LFEE);
}

#[test]
fn lffm_is_not_a_fir() {
    assert!(parse_gng_sector_filename("LFFM-Military_20260807195057-260801-0001.sct").is_none());
}

#[test]
fn rejects_unrelated_filenames() {
    assert!(parse_gng_sector_filename("README.txt").is_none());
    assert!(parse_gng_sector_filename("garbage.sct").is_none());
    assert!(parse_gng_sector_filename("LFXX-Base.sct").is_none());
}

#[test]
fn parses_bare_fir_filename_without_cycle() {
    let (fir, cycle) = parse_gng_sector_filename("LFBB.sct").unwrap();
    assert_eq!(fir, FirCode::LFBB);
    assert!(cycle.is_none());
}

#[test]
fn case_insensitive_fir_match() {
    let (fir, _) = parse_gng_sector_filename("lfmm-Marseille-260301-0003.sct").unwrap();
    assert_eq!(fir, FirCode::LFMM);
}

#[test]
fn does_not_match_lfxx_or_other_lf_codes_as_fir() {
    assert!(parse_gng_sector_filename("LFXX-Base-260301-0003.sct").is_none());
    assert!(parse_gng_sector_filename("LFXY-Random.sct").is_none());
}

#[test]
fn combined_lfxxn_resolves_to_lfff_and_lfee() {
    let (areas, cycle) =
        parse_gng_sector_target("LFXXN-Paris-Reims_20260605153747-260501-0001.sct").unwrap();
    assert_eq!(areas, vec![AreaCode::Fir(FirCode::LFFF), AreaCode::Fir(FirCode::LFEE)]);
    assert_eq!(cycle.as_deref(), Some("2605"));
}

#[test]
fn combined_lfxxn_ese_variant() {
    let (areas, cycle) =
        parse_gng_sector_target("LFXXN-Paris-Reims_20260605153747-260501-0001.ese").unwrap();
    assert_eq!(areas, vec![AreaCode::Fir(FirCode::LFFF), AreaCode::Fir(FirCode::LFEE)]);
    assert_eq!(cycle.as_deref(), Some("2605"));
}

#[test]
fn combined_lfxxn_is_not_a_single_fir() {
    assert!(
        parse_gng_sector_filename("LFXXN-Paris-Reims_20260605153747-260501-0001.sct").is_none()
    );
}

#[test]
fn sector_target_falls_back_to_single_fir() {
    let (areas, cycle) = parse_gng_sector_target("LFBB-Bordeaux-260301-0003.sct").unwrap();
    assert_eq!(areas, vec![AreaCode::Fir(FirCode::LFBB)]);
    assert_eq!(cycle.as_deref(), Some("2603"));
}

#[test]
fn lffm_is_a_sector_target_of_its_own() {
    let (areas, cycle) =
        parse_gng_sector_target("LFFM-Military_20260807195057-260801-0001.sct").unwrap();
    assert_eq!(areas, vec![AreaCode::Lffm]);
    assert_eq!(cycle.as_deref(), Some("2608"));
}

#[test]
fn lffm_ese_variant() {
    let (areas, cycle) =
        parse_gng_sector_target("LFFM-Military_20260807195057-260801-0001.ese").unwrap();
    assert_eq!(areas, vec![AreaCode::Lffm]);
    assert_eq!(cycle.as_deref(), Some("2608"));
}

#[test]
fn lffm_area_requires_separator() {
    assert!(parse_gng_sector_target("LFFMX-Random.sct").is_none());
}

#[test]
fn combined_code_requires_separator() {
    assert!(parse_gng_sector_target("LFXXNX-Random.sct").is_none());
}

// Further cases of the filename grammar.

#[test]
fn every_separator_ends_a_code() {
    assert_eq!(leading_area_code("LFRR-x"), Some(AreaCode::Fir(FirCode::LFRR)));
    assert_eq!(leading_area_code("LFRR_x"), Some(AreaCode::Fir(FirCode::LFRR)));
    assert_eq!(leading_area_code("LFRR x"), Some(AreaCode::Fir(FirCode::LFRR)));
    assert_eq!(leading_area_code("LFRR.sct"), Some(AreaCode::Fir(FirCode::LFRR)));
    assert_eq!(leading_area_code("LFRR"), Some(AreaCode::Fir(FirCode::LFRR)));
    assert_eq!(leading_area_code("LFRR+x"), None);
    assert_eq!(leading_area_code("LFR"), None);
    assert_eq!(leading_area_code(""), None);
}

#[test]
fn lffm_leads_as_an_area_in_any_case() {
    assert_eq!(leading_area_code("lffm.sct"), Some(AreaCode::Lffm));
    assert_eq!(leading_area_code("LfFm-x"), Some(AreaCode::Lffm));
}

#[test]
fn combined_code_is_recognised_bare_and_in_lower_case() {
    assert_eq!(LFXXN_CODE, "LFXXN");
    assert_eq!(leading_combined_code("LFXXN"), Some(&[FirCode::LFFF, FirCode::LFEE][..]));
    assert_eq!(leading_combined_code("lfxxn-paris"), Some(&[FirCode::LFFF, FirCode::LFEE][..]));
    assert_eq!(leading_combined_code("LFXXNX"), None);
    assert_eq!(leading_combined_code("LFBB-x"), None);
    assert_eq!(leading_area_code("LFXXN-Paris"), None);
}

#[test]
fn cycle_needs_six_digits_between_dashes() {
    let cycle = |name: &str| parse_gng_sector_filename(name).unwrap().1;
    assert_eq!(cycle("LFBB-26030-0003.sct"), None);
    assert_eq!(cycle("LFBB-2603011-0003.sct"), None);
    assert_eq!(cycle("LFBB-260301.sct"), None);
    assert_eq!(cycle("LFBB_260301-0003.sct"), None);
    assert_eq!(cycle("LFBB-26a301-0003.sct"), None);
    assert_eq!(cycle("LFBB-260301-"), Some("2603".to_string()));
}

#[test]
fn leftmost_dash_group_is_the_cycle() {
    let (_, cycle) = parse_gng_sector_filename("LFEE-111111-222222-.sct").unwrap();
    assert_eq!(cycle.as_deref(), Some("1111"));
    // Groups may share their dashes.
    let (_, cycle) = parse_gng_sector_filename("LFEE-x-123456-654321-").unwrap();
    assert_eq!(cycle.as_deref(), Some("1234"));
}

#[test]
fn timestamp_before_the_group_is_ignored() {
    let (_, cycle) =
        parse_gng_sector_filename("LFMM-Marseille_20260605153747-260701-0001.sct").unwrap();
    assert_eq!(cycle.as_deref(), Some("2607"));
}

#[test]
fn name_and_upper_cased_name_parse_alike() {
    let lower = parse_gng_sector_target("lfbb-bordeaux-260301-0003.sct").unwrap();
    let upper = parse_gng_sector_target("LFBB-BORDEAUX-260301-0003.SCT").unwrap();
    assert_eq!(lower, upper);
}

#[test]
fn unicode_names_do_not_confuse_the_parser() {
    let (fir, cycle) = parse_gng_sector_filename("LFBB-Bordéaux-260301-0003.sct").unwrap();
    assert_eq!(fir, FirCode::LFBB);
    assert_eq!(cycle.as_deref(), Some("2603"));
    assert!(parse_gng_sector_filename("ÉLFBB-x").is_none());
}
