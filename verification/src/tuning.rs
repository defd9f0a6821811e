//! The tunables that decide things, in one place. Floating-point thresholds
//! are given as bit patterns, with the number beside them.

use vstd::prelude::*;

verus! {

// ---------------------------------------------------------------------------
// Network
// ---------------------------------------------------------------------------

/// Attempts per S3 object before giving up (exponential backoff between).
pub const DOWNLOAD_RETRIES: u32 = 3;

/// Concurrent range-request connections per file. Files are already
/// downloaded in parallel with each other; this additionally splits each
/// file into byte ranges fetched on separate connections, so a single
/// object is not capped by S3's per-connection throughput. 1 disables
/// splitting.
pub const DOWNLOAD_CONNECTIONS_PER_FILE: u64 = 4;

/// Files smaller than this (8 MiB) download on a single connection (the
/// range bookkeeping is not worth it for small objects).
pub const DOWNLOAD_SPLIT_MIN_BYTES: u64 = 8_388_608;

/// How many 10-minute slots to walk back from now when locating the latest
/// complete scene (36 = 6 hours).
pub const SCENE_LOOKBACK_SLOTS: usize = 36;

// ---------------------------------------------------------------------------
// Timelapse
// ---------------------------------------------------------------------------

/// Default box-average factor of a timelapse (4 -> 2750x2750 frames).
pub const TIMELAPSE_DOWNSAMPLE: usize = 4;

// ---------------------------------------------------------------------------
// Storm tracking
// ---------------------------------------------------------------------------

/// Sliding-window size, in 2 km B13 pixels, used to seed the track on the
/// first frame: the window with the greatest cold-cloud weight wins.
pub const TRACK_SEED_WINDOW: usize = 256;

/// Frame-to-frame search radius around the previous position, in 2 km
/// pixels (150 px = 300 km; cyclones drift a few km per 10-minute slot).
pub const TRACK_SEARCH_RADIUS: usize = 150;

/// Minimum total cold weight (500 kelvin below threshold, summed over
/// pixels) for a fix; below this the tracker holds its previous position.
pub const TRACK_MIN_WEIGHT: u64 = 0x407f_4000_0000_0000;

// ---------------------------------------------------------------------------
// IR enhancement (CLUT)
// ---------------------------------------------------------------------------

/// Piecewise-linear color lookup tables over brightness temperature in
/// kelvin. Points are sorted by ascending temperature; colors between points
/// are linearly interpolated, and temperatures beyond either end clamp to the
/// end color.
///
/// `convection` (the default): warm scene temperatures render as inverted
/// grayscale (warm surface dark, cold cloud bright); below 240 K the ramp
/// runs blue -> green -> yellow -> red so convective cloud tops stand out,
/// scaled so red is reached at the temperatures the coldest real tops
/// actually hit (~195-210 K) rather than only in theory.
pub const CLUT_CONVECTION: [(u32, [u8; 3]); 8] = [
    (0x4336_0000, [140, 0, 0]),  // 182.0: extreme overshooting tops, deep red
    (0x434c_0000, [255, 0, 0]),  // 204.0: red, covers the bulk of a cold CDO
    (0x4356_0000, [255, 255, 0]),  // 214.0: yellow
    (0x4362_0000, [0, 200, 0]),  // 226.0: green
    (0x436b_0000, [0, 0, 255]),  // 235.0: pure blue where the sandwich fades in
    (0x4370_0000, [80, 160, 255]),  // 240.0: light blue, end of the cold ramp
    (0x4370_199a, [220, 220, 220]),  // 240.1: jump to the grayscale segment
    (0x43a5_0000, [0, 0, 0]),  // 330.0: warm surface, black
];

/// Plain inverted grayscale, the classic clean-IR display: cold cloud
/// bright, warm surface dark, no color anywhere.
pub const CLUT_GRAYSCALE: [(u32, [u8; 3]); 2] = [
    (0x4334_0000, [255, 255, 255]),  // 180.0
    (0x43a0_0000, [0, 0, 0]),  // 320.0
];

/// Full-scene rainbow: every temperature gets a hue, so surface gradients
/// show as well as cloud tops (the retro "colorized IR" look).
pub const CLUT_RAINBOW: [(u32, [u8; 3]); 9] = [
    (0x433e_0000, [255, 255, 255]),  // 190.0: coldest tops, white
    (0x4348_0000, [255, 0, 255]),  // 200.0: magenta
    (0x4354_0000, [255, 0, 0]),  // 212.0: red
    (0x4360_0000, [255, 255, 0]),  // 224.0: yellow
    (0x436c_0000, [0, 220, 0]),  // 236.0: green
    (0x4378_0000, [0, 255, 255]),  // 248.0: cyan
    (0x4383_0000, [0, 0, 255]),  // 262.0: blue
    (0x438c_0000, [20, 20, 90]),  // 280.0: navy
    (0x43a0_0000, [0, 0, 0]),  // 320.0: warm surface, black
];

/// Water-vapor palette, tuned for the B08-B10 6-7 um channels: dry
/// descending air (warm brightness temperatures) in browns and oranges,
/// moist mid-levels in gray-white, cold convective tops in blues and teal.
pub const CLUT_WATER_VAPOR: [(u32, [u8; 3]); 10] = [
    (0x4339_0000, [255, 0, 255]),  // 185.0: extreme overshooting tops, magenta
    (0x4343_0000, [0, 220, 180]),  // 195.0: teal
    (0x434d_0000, [0, 130, 255]),  // 205.0: blue
    (0x4357_0000, [120, 220, 255]),  // 215.0: light blue
    (0x4364_0000, [255, 255, 255]),  // 228.0: white, moist upper troposphere
    (0x436e_0000, [180, 180, 180]),  // 238.0: gray
    (0x4376_0000, [235, 200, 160]),  // 246.0: tan
    (0x4381_0000, [200, 100, 30]),  // 258.0: orange, drying
    (0x4387_0000, [70, 30, 0]),  // 270.0: dark brown, very dry
    (0x43a5_0000, [40, 15, 0]),  // 330.0
];

/// Brightness temperatures below this (160 K) are not physical for cloud
/// tops; they come from sensor noise in space pixels, which would otherwise
/// light up the cold end of the CLUT around the limb.
pub const SPACE_BT_CUTOFF: u32 = 0x4320_0000;

// ---------------------------------------------------------------------------
// Combined product (true color + B13)
// ---------------------------------------------------------------------------

/// Cold cloud tops get their CLUT color below this temperature (235 K). It
/// sits below the CLUT's 240 K color threshold on purpose: it filters out
/// marginal pixels that barely enter the cold ramp, so only genuinely
/// convective tops are painted.
pub const SANDWICH_START: u32 = 0x436b_0000;

/// Cloud-top heights are estimated up to this height (16 km).
pub const PARALLAX_MAX_HEIGHT_KM: u32 = 0x4180_0000;

/// The parallax correction is skipped for cloud up to this height (1 km).
pub const PARALLAX_MIN_HEIGHT_KM: u32 = 0x3f80_0000;

// ---------------------------------------------------------------------------
// Cloud-top height render
// ---------------------------------------------------------------------------

/// Pixels whose estimated top sits below this height (0.5 km) count as
/// cloud-free in the height render (warm surfaces read as ~0 height).
pub const CLOUD_MIN_HEIGHT_KM: u32 = 0x3f00_0000;

/// Black, for pixels without data.
pub const BLACK: [u8; 3] = [0, 0, 0];

/// What cloud-free and space pixels render as: near-black, so the colored
/// cloud decks float on a dark disk.
pub const HEIGHT_CLEAR_RGB: [u8; 3] = [10, 10, 14];

/// Hypsometric palette over cloud-top height in km, read like a relief map:
/// green lowlands through yellow and orange foothills to brown high ground
/// and white at the tropopause. Points sorted ascending; linear blend
/// between, clamped at the ends.
pub const HEIGHT_CLUT: [(u32, [u8; 3]); 9] = [
    (0x3f00_0000, [30, 70, 35]),  // 0.5: shallow stratus, dark green
    (0x4000_0000, [70, 150, 60]),  // 2.0: low cloud, green
    (0x4080_0000, [160, 190, 80]),  // 4.0: yellow-green
    (0x40c0_0000, [220, 200, 100]),  // 6.0: mid-level, tan
    (0x4100_0000, [230, 150, 60]),  // 8.0: orange
    (0x4120_0000, [200, 90, 40]),  // 10.0: red-brown
    (0x4140_0000, [150, 55, 30]),  // 12.0: deep convection, dark brown
    (0x4160_0000, [220, 220, 230]),  // 14.0: near the tropopause, pale
    (0x4180_0000, [255, 255, 255]),  // 16.0: overshooting tops, white
];

} // verus!
