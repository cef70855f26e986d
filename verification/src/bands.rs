//! Photometric bands: names, wavelengths and frequencies.
use crate::binary64::Binary64;
use crate::numbers::LIGHT_SPEED;
use crate::text::{same_text, text_before};
use vstd::prelude::*;

verus! {

/// Effective central wavelength of a band, in angstrom.
pub open spec fn wavelength_of(band: Seq<char>) -> Option<u64> {
    if band == "g"@ || band == "ztfg"@ || band == "lsstg"@ || band == "ZTF_g"@ {
        Some(4770)
    } else if band == "r"@ || band == "ztfr"@ || band == "lsstr"@ || band == "ZTF_r"@ {
        Some(6231)
    } else if band == "i"@ || band == "ztfi"@ || band == "lssti"@ || band == "ZTF_i"@ {
        Some(7625)
    } else if band == "z"@ || band == "ztfz"@ || band == "lsstz"@ {
        Some(9100)
    } else if band == "y"@ || band == "lssty"@ {
        Some(9710)
    } else if band == "u"@ || band == "lsstu"@ {
        Some(3540)
    } else {
        None
    }
}

/// The names that have a wavelength, in ascending order.
pub open spec fn known_names() -> Seq<Seq<char>> {
    seq![
        "ZTF_g"@,
        "ZTF_i"@,
        "ZTF_r"@,
        "g"@,
        "i"@,
        "lsstg"@,
        "lssti"@,
        "lsstr"@,
        "lsstu"@,
        "lssty"@,
        "lsstz"@,
        "r"@,
        "u"@,
        "y"@,
        "z"@,
        "ztfg"@,
        "ztfi"@,
        "ztfr"@,
        "ztfz"@,
    ]
}

/// Number of names that have a wavelength.
pub const N_KNOWN: usize = 19;

/// The `i`th of the names that have a wavelength.
pub fn known_name(i: usize) -> (r: &'static str)
    requires
        i < N_KNOWN,
    ensures
        r@ == known_names()[i as int],
{
    if i == 0 {
        "ZTF_g"
    } else if i == 1 {
        "ZTF_i"
    } else if i == 2 {
        "ZTF_r"
    } else if i == 3 {
        "g"
    } else if i == 4 {
        "i"
    } else if i == 5 {
        "lsstg"
    } else if i == 6 {
        "lssti"
    } else if i == 7 {
        "lsstr"
    } else if i == 8 {
        "lsstu"
    } else if i == 9 {
        "lssty"
    } else if i == 10 {
        "lsstz"
    } else if i == 11 {
        "r"
    } else if i == 12 {
        "u"
    } else if i == 13 {
        "y"
    } else if i == 14 {
        "z"
    } else if i == 15 {
        "ztfg"
    } else if i == 16 {
        "ztfi"
    } else if i == 17 {
        "ztfr"
    } else {
        "ztfz"
    }
}

/// Effective central wavelength, in angstrom, for the supported filter names:
/// short names, ZTF names and LSST names.
pub fn band_wavelength(band: &str) -> (r: Option<Binary64>)
    ensures
        r == match wavelength_of(band@) {
            Some(angstrom) => Some(Binary64::of_count(angstrom)),
            None => None,
        },
{
    if same_text(band, "g") || same_text(band, "ztfg") || same_text(band, "lsstg") || same_text(
        band,
        "ZTF_g",
    ) {
        Some(Binary64::of_count(4770))
    } else if same_text(band, "r") || same_text(band, "ztfr") || same_text(band, "lsstr")
        || same_text(band, "ZTF_r") {
        Some(Binary64::of_count(6231))
    } else if same_text(band, "i") || same_text(band, "ztfi") || same_text(band, "lssti")
        || same_text(band, "ZTF_i") {
        Some(Binary64::of_count(7625))
    } else if same_text(band, "z") || same_text(band, "ztfz") || same_text(band, "lsstz") {
        Some(Binary64::of_count(9100))
    } else if same_text(band, "y") || same_text(band, "lssty") {
        Some(Binary64::of_count(9710))
    } else if same_text(band, "u") || same_text(band, "lsstu") {
        Some(Binary64::of_count(3540))
    } else {
        None
    }
}

/// Effective frequency of a band, in hertz.
pub open spec fn frequency_of(band: Seq<char>) -> Option<Binary64> {
    match wavelength_of(band) {
        Some(angstrom) => Some(Binary64 { bits: LIGHT_SPEED }.over(Binary64::of_count(angstrom))),
        None => None,
    }
}

/// Effective frequency for a band name, in hertz, or `None` if it is unknown.
pub fn band_frequency_hz(band: &str) -> (r: Option<Binary64>)
    ensures
        r == frequency_of(band@),
{
    match band_wavelength(band) {
        Some(lambda) => Some(Binary64 { bits: LIGHT_SPEED }.over(lambda)),
        None => None,
    }
}

/// The known names are exactly the names that have a wavelength.
pub proof fn law_known_names_are_complete(band: Seq<char>)
    ensures
        wavelength_of(band) is Some <==> known_names().contains(band),
{
    let k = known_names();
    assert(k[0] == "ZTF_g"@ && k[1] == "ZTF_i"@ && k[2] == "ZTF_r"@ && k[3] == "g"@ && k[4] == "i"@
        && k[5] == "lsstg"@ && k[6] == "lssti"@ && k[7] == "lsstr"@ && k[8] == "lsstu"@ && k[9]
        == "lssty"@ && k[10] == "lsstz"@ && k[11] == "r"@ && k[12] == "u"@ && k[13] == "y"@ && k[14]
        == "z"@ && k[15] == "ztfg"@ && k[16] == "ztfi"@ && k[17] == "ztfr"@ && k[18] == "ztfz"@);
}

/// The known names stand in ascending order.
pub proof fn law_known_names_ascend(i: int)
    requires
        0 <= i < N_KNOWN - 1,
    ensures
        text_before(known_names()[i], known_names()[i + 1]),
{
    reveal_with_fuel(text_before, 6);
    reveal_strlit("ZTF_g");
    reveal_strlit("ZTF_i");
    reveal_strlit("ZTF_r");
    reveal_strlit("g");
    reveal_strlit("i");
    reveal_strlit("lsstg");
    reveal_strlit("lssti");
    reveal_strlit("lsstr");
    reveal_strlit("lsstu");
    reveal_strlit("lssty");
    reveal_strlit("lsstz");
    reveal_strlit("r");
    reveal_strlit("u");
    reveal_strlit("y");
    reveal_strlit("z");
    reveal_strlit("ztfg");
    reveal_strlit("ztfi");
    reveal_strlit("ztfr");
    reveal_strlit("ztfz");
}

} // verus!
