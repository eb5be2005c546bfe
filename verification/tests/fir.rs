use controller_pack_core::fir::{AreaCode, FirCode, LFFM_CODE};
use std::str::FromStr;

#[test]
fn fir_codes_read_back() {
    for fir in FirCode::ALL {
        assert_eq!(FirCode::from_str(fir.as_str()), Ok(fir));
        assert_eq!(FirCode::from_str(&fir.as_str().to_ascii_lowercase()), Ok(fir));
        assert_eq!(fir.to_string(), fir.as_str());
    }
    assert_eq!(FirCode::LFBB.as_str(), "LFBB");
    assert_eq!(FirCode::LFEE.as_str(), "LFEE");
    assert_eq!(FirCode::LFFF.as_str(), "LFFF");
    assert_eq!(FirCode::LFMM.as_str(), "LFMM");
    assert_eq!(FirCode::LFRR.as_str(), "LFRR");
}

#[test]
fn unknown_codes_are_refused() {
    assert_eq!(FirCode::from_str("LFFM"), Err(()));
    assert_eq!(FirCode::from_str("LFBBX"), Err(()));
    assert_eq!(FirCode::from_str(" LFBB"), Err(()));
    assert_eq!(FirCode::from_str(""), Err(()));
    assert_eq!(AreaCode::from_str("LFXX"), Err(()));
    assert_eq!(AreaCode::from_str("LFXXN"), Err(()));
}

#[test]
fn area_codes_read_back() {
    let all = AreaCode::all();
    assert_eq!(all.len(), 6);
    assert_eq!(all[5], AreaCode::Lffm);
    for area in all {
        assert_eq!(AreaCode::from_str(area.as_str()), Ok(area));
        assert_eq!(AreaCode::from_str(&area.as_str().to_ascii_lowercase()), Ok(area));
        assert_eq!(area.to_string(), area.as_str());
    }
    assert_eq!(AreaCode::from_str("lFfM"), Ok(AreaCode::Lffm));
    assert_eq!(AreaCode::Lffm.as_str(), LFFM_CODE);
}

#[test]
fn a_fir_is_an_area_with_the_same_code() {
    for fir in FirCode::ALL {
        let area = AreaCode::from(fir);
        assert_eq!(area, AreaCode::Fir(fir));
        assert_eq!(area.as_str(), fir.as_str());
    }
}
