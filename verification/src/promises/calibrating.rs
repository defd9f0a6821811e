//! Lookup tables of counts.

use vstd::prelude::*;

use crate::hsd::{Calibration, CalibrationKind};
use crate::promises::painting;
use crate::render;

verus! {

/// A count is a measurement where it is neither of the two sentinels.
pub proof fn sentinels_are_no_measurements(cal: &Calibration, count: u16, valid: bool)
    requires
        call_ensures(Calibration::is_valid, (cal, count), valid),
    ensures
        !valid <==> count == cal.error_count || count == cal.outside_scan_count,
{
}

/// A reflective band has a table with the reflectance of each count, and no
/// number for the sentinels; other bands have none.
pub proof fn reflective_bands_have_reflectances<F: Fn(u64, u64, u64, u16) -> u32>(
    cal: &Calibration,
    reflectance: F,
    lut: Option<Vec<u32>>,
    count: u16,
)
    requires
        call_ensures(Calibration::reflectance_lut::<F>, (cal, reflectance), lut),
    ensures
        match (cal.kind, lut) {
            (CalibrationKind::Reflective { albedo_coeff }, Some(table)) => {
                &&& table@.len() == 0x1_0000
                &&& if count == cal.error_count || count == cal.outside_scan_count {
                    table@[count as int] == 0x7fc0_0000
                } else {
                    call_ensures(
                        reflectance,
                        (albedo_coeff, cal.gain, cal.offset, count),
                        table@[count as int],
                    )
                }
            },
            (CalibrationKind::Emissive { .. }, None) => true,
            _ => false,
        },
{
    if let Some(table) = lut {
        assert(table@[count as int] == table@[count as int]);
    }
}

/// A thermal band has a table with the temperature of each count, and no
/// number for the sentinels and where there is no radiance; other bands have
/// none.
pub proof fn thermal_bands_have_temperatures<R, T>(
    cal: &Calibration,
    radiance: R,
    temperature: T,
    lut: Option<Vec<u32>>,
    count: u16,
) where R: Fn(u64, u64, u16) -> u64, T: Fn(&CalibrationKind, u64) -> u32
    requires
        call_ensures(
            Calibration::brightness_temperature_lut::<R, T>,
            (cal, radiance, temperature),
            lut,
        ),
    ensures
        lut is Some <==> cal.kind is Emissive,
        lut matches Some(table) ==> table@.len() == 0x1_0000 && painting::may_have(
            *cal,
            radiance,
            temperature,
            count,
            table@[count as int],
        ),
{
    if let Some(table) = lut {
        assert(render::is_temperature_table(*cal, radiance, temperature, table@));
        painting::lemma_may_have(*cal, radiance, temperature, table@, count);
    }
}

} // verus!
