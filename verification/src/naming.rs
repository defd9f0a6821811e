//! The names of segment files and objects.

use vstd::arithmetic::div_mod::lemma_fundamental_div_mod_converse;
use vstd::prelude::*;
use vstd::string::*;

use crate::band::{AhiBand, Band, IrBand, SEGMENTS_PER_DISK};
use crate::calendar;
use crate::calendar::Slot;
use crate::decimal;
use crate::text;

verus! {

/// Where the bucket is.
pub const BUCKET_URL: &'static str = "https://noaa-himawari9.s3.amazonaws.com";

// ---------------------------------------------------------------------------
// Names
// ---------------------------------------------------------------------------

/// The file name of one segment: satellite, observation time, band,
/// resolution, segment and number of segments.
pub open spec fn file_text(
    secs: int,
    code: Seq<char>,
    resolution: Seq<char>,
    segment: u8,
) -> Seq<char> {
    "HS_H09_"@ + calendar::formatted("%Y%m%d"@, secs) + "_"@ + calendar::formatted("%H%M"@, secs)
        + "_"@ + code + "_FLDK_"@ + resolution + "_S"@ + decimal::zero_padded(segment as nat, 2)
        + decimal::zero_padded(SEGMENTS_PER_DISK as nat, 2) + ".DAT.bz2"@
}

/// The file name of one segment of a band.
pub open spec fn segment_file<B: AhiBand>(slot: Slot, band: B, segment: u8) -> Seq<char> {
    file_text(slot@, band.band_code(), band.resolution(), segment)
}

/// The key prefix that all objects of a slot share.
pub open spec fn slot_prefix(secs: int) -> Seq<char> {
    "AHI-L1b-FLDK/"@ + calendar::formatted("%Y/%m/%d/%H%M"@, secs) + "/"@
}

proof fn lemma_formats()
    ensures
        calendar::is_format("%Y%m%d"@),
        calendar::is_format("%H%M"@),
        calendar::is_format("%Y/%m/%d/%H%M"@),
        calendar::is_format("_%Y%m%d_%H%M_"@),
{
    reveal_strlit("%Y%m%d");
    reveal_strlit("%H%M");
    reveal_strlit("%Y/%m/%d/%H%M");
    reveal_strlit("_%Y%m%d_%H%M_");
    reveal_with_fuel(calendar::is_format_from, 12);
}

/// The file name of one segment of a band.
pub fn file_name<B: AhiBand>(slot: Slot, band: B, segment: u8) -> (name: String)
    ensures
        name@ == segment_file(slot, band, segment),
{
    proof {
        lemma_formats();
    }
    let mut name = "HS_H09_".to_owned();
    name.append(slot.format("%Y%m%d").as_str());
    name.append("_");
    name.append(slot.format("%H%M").as_str());
    name.append("_");
    name.append(band.code().as_str());
    name.append("_FLDK_");
    name.append(band.resolution_code());
    name.append("_S");
    name.append(decimal::padded_decimal(segment as u64, 2).as_str());
    name.append(decimal::padded_decimal(SEGMENTS_PER_DISK as u64, 2).as_str());
    name.append(".DAT.bz2");
    name
}

/// The key prefix that all objects of a slot share.
pub fn listing_prefix(slot: Slot) -> (prefix: String)
    ensures
        prefix@ == slot_prefix(slot@),
{
    proof {
        lemma_formats();
    }
    let mut prefix = "AHI-L1b-FLDK/".to_owned();
    prefix.append(slot.format("%Y/%m/%d/%H%M").as_str());
    prefix.append("/");
    prefix
}

/// Where one segment of a band is published.
pub fn object_url<B: AhiBand>(slot: Slot, band: B, segment: u8) -> (url: String)
    ensures
        url@ == BUCKET_URL@ + "/"@ + slot_prefix(slot@) + segment_file(slot, band, segment),
{
    let mut url = BUCKET_URL.to_owned();
    url.append("/");
    url.append(listing_prefix(slot).as_str());
    url.append(file_name(slot, band, segment).as_str());
    url
}

// ---------------------------------------------------------------------------
// Cached files
// ---------------------------------------------------------------------------

/// Whether a file name is that of a cached file of a slot: it starts as all
/// segment files do and carries the slot's time stamp.
pub open spec fn is_cached_file(name: Seq<char>, secs: int) -> bool {
    text::stands_at(name, "HS_H09"@, 0) && text::has_piece(
        name,
        calendar::formatted("_%Y%m%d_%H%M_"@, secs),
    )
}

/// Tests whether a file in the cache directory belongs to one observation
/// slot.
pub fn belongs_to_slot(name: &str, slot: Slot) -> (belongs: bool)
    ensures
        belongs == is_cached_file(name@, slot@),
{
    proof {
        lemma_formats();
    }
    let name = text::to_chars(name);
    let prefix = text::to_chars("HS_H09");
    let stamp = text::to_chars(slot.format("_%Y%m%d_%H%M_").as_str());
    text::starts_with(name.as_slice(), prefix.as_slice()) && text::contains(
        name.as_slice(),
        stamp.as_slice(),
    )
}

// ---------------------------------------------------------------------------
// Whose file it is
// ---------------------------------------------------------------------------

/// The date of a time, as it stands in file names.
pub open spec fn date_text(secs: int) -> Seq<char> {
    let (year, month, day) = calendar::civil_date(secs / 86400);
    calendar::year_text(year) + decimal::zero_padded(month as nat, 2) + decimal::zero_padded(
        day as nat,
        2,
    )
}

/// The time of day, as it stands in file names.
pub open spec fn clock_text(secs: int) -> Seq<char> {
    decimal::zero_padded(calendar::hour_of(secs) as nat, 2) + decimal::zero_padded(
        calendar::minute_of(secs) as nat,
        2,
    )
}

/// Whether a text holds no underscore.
pub open spec fn no_bar(s: Seq<char>) -> bool {
    forall|i: int| 0 <= i < s.len() ==> #[trigger] s[i] != '_'
}

proof fn lemma_date_format(secs: int)
    ensures
        calendar::formatted("%Y%m%d"@, secs) == date_text(secs),
{
    reveal_strlit("%Y%m%d");
    let f = "%Y%m%d"@;
    let (year, month, day) = calendar::civil_date(secs / 86400);
    let days = decimal::zero_padded(day as nat, 2);
    let months = decimal::zero_padded(month as nat, 2);
    assert(calendar::formatted_from(f, 6, secs) == Seq::<char>::empty());
    assert(calendar::formatted_from(f, 4, secs) =~= days);
    assert(calendar::formatted_from(f, 2, secs) == months + days);
    assert(calendar::formatted_from(f, 0, secs) == calendar::year_text(year) + (months + days));
    assert(calendar::year_text(year) + (months + days) =~= date_text(secs));
}

proof fn lemma_clock_format(secs: int)
    ensures
        calendar::formatted("%H%M"@, secs) == clock_text(secs),
{
    reveal_strlit("%H%M");
    let f = "%H%M"@;
    let minutes = decimal::zero_padded(calendar::minute_of(secs) as nat, 2);
    assert(calendar::formatted_from(f, 4, secs) == Seq::<char>::empty());
    assert(calendar::formatted_from(f, 2, secs) =~= minutes);
    assert(calendar::formatted_from(f, 0, secs) == clock_text(secs));
}

proof fn lemma_stamp_format(secs: int)
    ensures
        calendar::formatted("_%Y%m%d_%H%M_"@, secs) == seq!['_'] + date_text(secs) + seq!['_']
            + clock_text(secs) + seq!['_'],
{
    reveal_strlit("_%Y%m%d_%H%M_");
    let f = "_%Y%m%d_%H%M_"@;
    let bar = seq!['_'];
    let (year, month, day) = calendar::civil_date(secs / 86400);
    let years = calendar::year_text(year);
    let months = decimal::zero_padded(month as nat, 2);
    let days = decimal::zero_padded(day as nat, 2);
    let hours = decimal::zero_padded(calendar::hour_of(secs) as nat, 2);
    let minutes = decimal::zero_padded(calendar::minute_of(secs) as nat, 2);
    assert(calendar::formatted_from(f, 13, secs) == Seq::<char>::empty());
    assert(calendar::formatted_from(f, 12, secs) =~= bar);
    assert(calendar::formatted_from(f, 10, secs) == minutes + bar);
    assert(calendar::formatted_from(f, 8, secs) == hours + (minutes + bar));
    assert(calendar::formatted_from(f, 7, secs) == bar + (hours + (minutes + bar)));
    let rest = bar + (hours + (minutes + bar));
    assert(calendar::formatted_from(f, 5, secs) == days + rest);
    assert(calendar::formatted_from(f, 3, secs) == months + (days + rest));
    assert(calendar::formatted_from(f, 1, secs) == years + (months + (days + rest)));
    assert(calendar::formatted_from(f, 0, secs) == bar + (years + (months + (days + rest))));
    assert(bar + (years + (months + (days + rest))) =~= bar + date_text(secs) + bar + clock_text(
        secs,
    ) + bar);
}

proof fn lemma_stamps(secs: int)
    ensures
        calendar::formatted("%Y%m%d"@, secs) == date_text(secs),
        calendar::formatted("%H%M"@, secs) == clock_text(secs),
        calendar::formatted("_%Y%m%d_%H%M_"@, secs) == seq!['_'] + date_text(secs) + seq!['_']
            + clock_text(secs) + seq!['_'],
{
    lemma_date_format(secs);
    lemma_clock_format(secs);
    lemma_stamp_format(secs);
}

proof fn lemma_date_text(secs: int)
    ensures
        date_text(secs).len() >= 8,
        no_bar(date_text(secs)),
        clock_text(secs).len() == 4,
        no_bar(clock_text(secs)),
        ({
            let (year, month, day) = calendar::civil_date(secs / 86400);
            let years = calendar::year_text(year);
            &&& date_text(secs).len() == years.len() + 4
            &&& date_text(secs).take(years.len() as int) == years
            &&& date_text(secs).subrange(years.len() as int, (years.len() + 2) as int)
                == decimal::zero_padded(month as nat, 2)
            &&& date_text(secs).subrange((years.len() + 2) as int, (years.len() + 4) as int)
                == decimal::zero_padded(day as nat, 2)
        }),
        clock_text(secs).take(2) == decimal::zero_padded(calendar::hour_of(secs) as nat, 2),
        clock_text(secs).skip(2) == decimal::zero_padded(calendar::minute_of(secs) as nat, 2),
{
    calendar::every_day_has_a_date(secs / 86400);
    let (year, month, day) = calendar::civil_date(secs / 86400);
    let (hour, minute) = (calendar::hour_of(secs), calendar::minute_of(secs));
    decimal::two_digits(month as nat);
    decimal::two_digits(day as nat);
    decimal::two_digits(hour as nat);
    decimal::two_digits(minute as nat);
    decimal::padded_numeral_reads_back(month as nat, 2);
    decimal::padded_numeral_reads_back(day as nat, 2);
    decimal::padded_numeral_reads_back(hour as nat, 2);
    decimal::padded_numeral_reads_back(minute as nat, 2);
    if year >= 0 {
        decimal::padded_numeral_reads_back(year as nat, 4);
    } else {
        decimal::padded_numeral_reads_back((-year) as nat, 4);
    }
    let years = calendar::year_text(year);
    assert(years.len() >= 4 && no_bar(years));
    let months = decimal::zero_padded(month as nat, 2);
    let days = decimal::zero_padded(day as nat, 2);
    let date = date_text(secs);
    assert(date =~= years + months + days);
    assert forall|i: int| 0 <= i < date.len() implies #[trigger] date[i] != '_' by {
        if i < years.len() {
            assert(date[i] == years[i]);
        } else if i < years.len() + 2 {
            assert(date[i] == months[i - years.len()]);
            assert(decimal::is_digit(months[i - years.len()]));
        } else {
            assert(date[i] == days[i - years.len() - 2]);
            assert(decimal::is_digit(days[i - years.len() - 2]));
        }
    }
    assert(date.take(years.len() as int) =~= years);
    assert(date.subrange(years.len() as int, (years.len() + 2) as int) =~= months);
    assert(date.subrange((years.len() + 2) as int, (years.len() + 4) as int) =~= days);
    let hours = decimal::zero_padded(hour as nat, 2);
    let minutes = decimal::zero_padded(minute as nat, 2);
    let clock = clock_text(secs);
    assert(clock =~= hours + minutes);
    assert forall|i: int| 0 <= i < clock.len() implies #[trigger] clock[i] != '_' by {
        if i < 2 {
            assert(decimal::is_digit(hours[i]));
        } else {
            assert(clock[i] == minutes[i - 2]);
            assert(decimal::is_digit(minutes[i - 2]));
        }
    }
    assert(clock.take(2) =~= hours);
    assert(clock.skip(2) =~= minutes);
}

proof fn lemma_year_text_differs(year: int, other: int)
    requires
        calendar::year_text(year) == calendar::year_text(other),
    ensures
        year == other,
{
    let (n, m) = (if year >= 0 {
        year as nat
    } else {
        (-year) as nat
    }, if other >= 0 {
        other as nat
    } else {
        (-other) as nat
    });
    decimal::padded_numeral_reads_back(n, 4);
    decimal::padded_numeral_reads_back(m, 4);
    let (a, b) = (calendar::year_text(year), calendar::year_text(other));
    let (p, q) = (decimal::zero_padded(n, 4), decimal::zero_padded(m, 4));
    assert(decimal::is_digit(p[0]) && decimal::is_digit(q[0]));
    if 0 <= year <= 9999 {
        assert(a[0] == p[0]);
        assert(0 <= other <= 9999);
    } else {
        assert(a[0] == '+' || a[0] == '-');
        assert(a.skip(1) =~= p);
        assert(!(0 <= other <= 9999)) by {
            if 0 <= other <= 9999 {
                assert(b[0] == q[0]);
            }
        }
        assert(b.skip(1) =~= q);
        assert(b[0] == '+' || b[0] == '-');
    }
    decimal::padded_numerals_differ(n, m, 4);
}

/// Two times whose dates and times of day are written alike fall into the
/// same minute.
proof fn lemma_same_texts(secs: int, other: int)
    requires
        date_text(secs) == date_text(other),
        clock_text(secs) == clock_text(other),
    ensures
        secs / 60 == other / 60,
{
    lemma_date_text(secs);
    lemma_date_text(other);
    let (year, month, day) = calendar::civil_date(secs / 86400);
    let (year2, month2, day2) = calendar::civil_date(other / 86400);
    calendar::every_day_has_a_date(secs / 86400);
    calendar::every_day_has_a_date(other / 86400);
    lemma_year_text_differs(year, year2);
    decimal::padded_numerals_differ(month as nat, month2 as nat, 2);
    decimal::padded_numerals_differ(day as nat, day2 as nat, 2);
    assert(secs / 86400 == other / 86400);
    decimal::padded_numerals_differ(
        calendar::hour_of(secs) as nat,
        calendar::hour_of(other) as nat,
        2,
    );
    decimal::padded_numerals_differ(
        calendar::minute_of(secs) as nat,
        calendar::minute_of(other) as nat,
        2,
    );
    lemma_minute_number(secs);
    lemma_minute_number(other);
}

proof fn lemma_minute_number(secs: int)
    ensures
        secs / 60 == 1440 * (secs / 86400) + 60 * calendar::hour_of(secs) + calendar::minute_of(
            secs,
        ),
{
    lemma_minute_fields(secs, secs / 60);
}

/// The parts of a file name behind the time stamp.
pub open spec fn name_tail(code: Seq<char>, resolution: Seq<char>, segment: u8) -> Seq<char> {
    "_"@ + code + "_FLDK_"@ + resolution + "_S"@ + decimal::zero_padded(segment as nat, 2)
        + decimal::zero_padded(SEGMENTS_PER_DISK as nat, 2) + ".DAT.bz2"@
}

proof fn lemma_file_text(secs: int, code: Seq<char>, resolution: Seq<char>, segment: u8)
    ensures
        file_text(secs, code, resolution, segment) == "HS_H09_"@ + date_text(secs) + "_"@
            + clock_text(secs) + name_tail(code, resolution, segment),
{
    lemma_stamps(secs);
    assert(file_text(secs, code, resolution, segment) =~= "HS_H09_"@ + date_text(secs) + "_"@
        + clock_text(secs) + name_tail(code, resolution, segment));
}

/// Every segment file of a slot is recognized as one of the slot's cached
/// files.
pub proof fn own_files_are_recognized(
    secs: int,
    code: Seq<char>,
    resolution: Seq<char>,
    segment: u8,
)
    ensures
        is_cached_file(file_text(secs, code, resolution, segment), secs),
{
    let name = file_text(secs, code, resolution, segment);
    let stamp = calendar::formatted("_%Y%m%d_%H%M_"@, secs);
    lemma_stamps(secs);
    lemma_file_text(secs, code, resolution, segment);
    reveal_strlit("HS_H09");
    reveal_strlit("HS_H09_");
    reveal_strlit("_");
    assert(name.subrange(0, 6) =~= "HS_H09"@);
    assert(name_tail(code, resolution, segment)[0] == '_');
    assert(name.subrange(6, (6 + stamp.len()) as int) =~= stamp);
    assert(text::stands_at(name, stamp, 6));
}

/// Whether the characters at the given places are the only underscores of a
/// text.
spec fn bars_only_at(s: Seq<char>, places: Seq<int>) -> bool {
    forall|i: int| 0 <= i < s.len() ==> (#[trigger] s[i] == '_' <==> places.contains(i))
}

/// Where the underscores of a file name are.
spec fn bar_places(date: int, code: int, resolution: int) -> Seq<int> {
    seq![
        2,
        6,
        7 + date,
        12 + date,
        13 + date + code,
        18 + date + code,
        19 + date + code + resolution,
    ]
}

proof fn lemma_bar_places_contain(date: int, code: int, resolution: int, i: int)
    ensures
        bar_places(date, code, resolution).contains(i) <==> (i == 2 || i == 6 || i == 7 + date || i
            == 12 + date || i == 13 + date + code || i == 18 + date + code || i == 19 + date + code
            + resolution),
{
    let places = bar_places(date, code, resolution);
    assert(places[0] == 2);
    assert(places[1] == 6);
    assert(places[2] == 7 + date);
    assert(places[3] == 12 + date);
    assert(places[4] == 13 + date + code);
    assert(places[5] == 18 + date + code);
    assert(places[6] == 19 + date + code + resolution);
}

#[verifier::rlimit(40)]
proof fn lemma_bars(secs: int, code: Seq<char>, resolution: Seq<char>, segment: u8)
    requires
        no_bar(code),
        no_bar(resolution),
    ensures
        bars_only_at(
            file_text(secs, code, resolution, segment),
            bar_places(date_text(secs).len() as int, code.len() as int, resolution.len() as int),
        ),
{
    let name = file_text(secs, code, resolution, segment);
    let date = date_text(secs);
    let clock = clock_text(secs);
    let d = date.len() as int;
    let c = code.len() as int;
    let r = resolution.len() as int;
    let counter = decimal::zero_padded(segment as nat, 2);
    let total = decimal::zero_padded(SEGMENTS_PER_DISK as nat, 2);
    let tail = name_tail(code, resolution, segment);
    lemma_file_text(secs, code, resolution, segment);
    lemma_date_text(secs);
    decimal::padded_numeral_reads_back(segment as nat, 2);
    decimal::padded_numeral_reads_back(SEGMENTS_PER_DISK as nat, 2);
    reveal_strlit("HS_H09_");
    reveal_strlit("_");
    reveal_strlit("_FLDK_");
    reveal_strlit("_S");
    reveal_strlit(".DAT.bz2");
    assert forall|i: int| 0 <= i < name.len() implies (#[trigger] name[i] == '_' <==> bar_places(
        d,
        c,
        r,
    ).contains(i)) by {
        lemma_bar_places_contain(d, c, r, i);
        if i < 7 {
            assert(name[i] == "HS_H09_"@[i]);
        } else if i < 7 + d {
            assert(name[i] == date[i - 7]);
        } else if i == 7 + d {
            assert(name[i] == "_"@[0]);
        } else if i < 12 + d {
            assert(name[i] == clock[i - 8 - d]);
        } else {
            let j = i - 12 - d;
            assert(name[i] == tail[j]);
            if j == 0 {
                assert(tail[j] == "_"@[0]);
            } else if j < 1 + c {
                assert(tail[j] == code[j - 1]);
            } else if j < 7 + c {
                assert(tail[j] == "_FLDK_"@[j - 1 - c]);
            } else if j < 7 + c + r {
                assert(tail[j] == resolution[j - 7 - c]);
            } else if j < 9 + c + r {
                assert(tail[j] == "_S"@[j - 7 - c - r]);
            } else if j < 9 + c + r + counter.len() {
                assert(tail[j] == counter[j - 9 - c - r]);
                assert(decimal::is_digit(counter[j - 9 - c - r]));
            } else if j < 9 + c + r + counter.len() + total.len() {
                assert(tail[j] == total[j - 9 - c - r - counter.len()]);
                assert(decimal::is_digit(total[j - 9 - c - r - counter.len()]));
            } else {
                assert(tail[j] == ".DAT.bz2"@[j - 9 - c - r - counter.len() - total.len()]);
            }
        }
    }
}

/// A time stamp can stand in a file name only where the name has its own.
proof fn lemma_stamp_place(
    secs: int,
    code: Seq<char>,
    resolution: Seq<char>,
    segment: u8,
    other: int,
    k: int,
)
    requires
        no_bar(code),
        no_bar(resolution),
        code.len() < 8,
        resolution.len() < 8,
        text::stands_at(
            file_text(secs, code, resolution, segment),
            calendar::formatted("_%Y%m%d_%H%M_"@, other),
            k,
        ),
    ensures
        k == 6,
        date_text(other).len() == date_text(secs).len(),
{
    let name = file_text(secs, code, resolution, segment);
    let stamp = calendar::formatted("_%Y%m%d_%H%M_"@, other);
    let date = date_text(other);
    lemma_stamps(other);
    lemma_date_text(secs);
    lemma_date_text(other);
    lemma_bars(secs, code, resolution, segment);
    let d = date_text(secs).len() as int;
    let (c, r) = (code.len() as int, resolution.len() as int);
    let e = date.len() as int;
    let cut = name.subrange(k, k + stamp.len());
    assert(cut == stamp);
    assert(name[k] == cut[0]);
    assert(name[k + e + 1] == cut[e + 1]);
    assert(stamp[0] == '_' && stamp[e + 1] == '_');
    assert(bar_places(d, c, r).contains(k));
    assert(bar_places(d, c, r).contains(k + e + 1));
    assert forall|i: int| k < i < k + e + 1 implies !#[trigger] bar_places(d, c, r).contains(
        i,
    ) by {
        assert(name[i] == cut[i - k]);
        assert(stamp[i - k] == date[i - k - 1]);
    }
    lemma_no_bar_between(d, c, r, k, e);
}

proof fn lemma_recognized_minute(
    secs: int,
    code: Seq<char>,
    resolution: Seq<char>,
    segment: u8,
    other: int,
)
    requires
        no_bar(code),
        no_bar(resolution),
        code.len() < 8,
        resolution.len() < 8,
        is_cached_file(file_text(secs, code, resolution, segment), other),
    ensures
        secs / 60 == other / 60,
{
    let name = file_text(secs, code, resolution, segment);
    let stamp = calendar::formatted("_%Y%m%d_%H%M_"@, other);
    let k = choose|k: int| text::stands_at(name, stamp, k);
    lemma_stamp_place(secs, code, resolution, segment, other, k);
    lemma_stamps(other);
    lemma_date_text(secs);
    lemma_date_text(other);
    lemma_file_text(secs, code, resolution, segment);
    reveal_strlit("HS_H09_");
    reveal_strlit("_");
    let d = date_text(secs).len() as int;
    let cut = name.subrange(6, 6 + stamp.len() as int);
    assert(cut == stamp);
    assert(cut.subrange(1, 1 + d) =~= date_text(secs));
    assert(stamp.subrange(1, 1 + d) =~= date_text(other));
    assert(cut.subrange(2 + d, 6 + d) =~= clock_text(secs));
    assert(stamp.subrange(2 + d, 6 + d) =~= clock_text(other));
    lemma_same_texts(secs, other);
}

/// A cached file is recognized as a file of a time exactly if it was named
/// for the same minute: the cache of one slot is purged completely, and no
/// other slot loses a file.
pub proof fn cached_files_are_told_apart(
    secs: int,
    code: Seq<char>,
    resolution: Seq<char>,
    segment: u8,
    other: int,
)
    requires
        no_bar(code),
        no_bar(resolution),
        code.len() < 8,
        resolution.len() < 8,
    ensures
        is_cached_file(file_text(secs, code, resolution, segment), other) <==> secs / 60 == other
            / 60,
{
    if secs / 60 == other / 60 {
        lemma_same_minute(secs, other);
        own_files_are_recognized(secs, code, resolution, segment);
        lemma_stamps(secs);
        lemma_stamps(other);
    }
    if is_cached_file(file_text(secs, code, resolution, segment), other) {
        lemma_recognized_minute(secs, code, resolution, segment, other);
    }
}

pub(crate) proof fn lemma_band_texts(band: Band)
    ensures
        no_bar(band.band_code()),
        band.band_code().len() == 3,
        no_bar(band.resolution()),
        band.resolution().len() == 3,
{
    match band {
        Band::B01 => {
            reveal_strlit("B01");
            reveal_strlit("R10");
        },
        Band::B02 => {
            reveal_strlit("B02");
            reveal_strlit("R10");
        },
        Band::B03 => {
            reveal_strlit("B03");
            reveal_strlit("R05");
        },
        Band::B04 => {
            reveal_strlit("B04");
            reveal_strlit("R10");
        },
        Band::B05 => {
            reveal_strlit("B05");
            reveal_strlit("R20");
        },
    }
}

pub(crate) proof fn lemma_ir_band_texts(band: IrBand)
    ensures
        no_bar(band.band_code()),
        band.band_code().len() <= 4,
        no_bar(band.resolution()),
        band.resolution().len() == 3,
{
    reveal_strlit("B");
    reveal_strlit("R20");
    let digits = decimal::zero_padded(band@ as nat, 2);
    let code = band.band_code();
    decimal::padded_numeral_reads_back(band@ as nat, 2);
    decimal::three_digits(band@ as nat);
    assert forall|i: int| 0 <= i < code.len() implies #[trigger] code[i] != '_' by {
        if i > 0 {
            assert(code[i] == digits[i - 1]);
            assert(decimal::is_digit(digits[i - 1]));
        }
    }
}

/// The codes of all bands are short and free of underscores, so the cached
/// files of one slot are told apart from those of every other slot.
pub proof fn band_files_are_told_apart(
    slot: Slot,
    other: Slot,
    band: Band,
    ir_band: IrBand,
    segment: u8,
)
    requires
        calendar::is_slot(slot@),
        calendar::is_slot(other@),
    ensures
        is_cached_file(segment_file(slot, band, segment), other@) <==> slot@ == other@,
        is_cached_file(segment_file(slot, ir_band, segment), other@) <==> slot@ == other@,
{
    assert(slot@ / 60 == other@ / 60 ==> slot@ == other@);
    assert(is_cached_file(segment_file(slot, band, segment), other@) <==> slot@ == other@) by {
        lemma_band_texts(band);
        cached_files_are_told_apart(slot@, band.band_code(), band.resolution(), segment, other@);
    }
    assert(is_cached_file(segment_file(slot, ir_band, segment), other@) <==> slot@ == other@) by {
        lemma_ir_band_texts(ir_band);
        cached_files_are_told_apart(
            slot@,
            ir_band.band_code(),
            ir_band.resolution(),
            segment,
            other@,
        );
    }
}

proof fn lemma_no_bar_between(d: int, c: int, r: int, k: int, e: int)
    requires
        8 <= d,
        8 <= e,
        0 <= c < 8,
        0 <= r < 8,
        bar_places(d, c, r).contains(k),
        bar_places(d, c, r).contains(k + e + 1),
        forall|i: int| k < i < k + e + 1 ==> !#[trigger] bar_places(d, c, r).contains(i),
    ensures
        k == 6 && e == d,
{
    let places = bar_places(d, c, r);
    lemma_bar_places_contain(d, c, r, k);
    lemma_bar_places_contain(d, c, r, k + e + 1);
    lemma_bar_places_contain(d, c, r, 6);
    lemma_bar_places_contain(d, c, r, 7 + d);
    lemma_bar_places_contain(d, c, r, 12 + d);
    lemma_bar_places_contain(d, c, r, 13 + d + c);
    lemma_bar_places_contain(d, c, r, 18 + d + c);
    lemma_bar_places_contain(d, c, r, 19 + d + c + r);
    assert(places.contains(6));
    assert(places.contains(7 + d));
    assert(places.contains(12 + d));
    assert(places.contains(13 + d + c));
    assert(places.contains(18 + d + c));
    assert(places.contains(19 + d + c + r));
}

proof fn lemma_minute_fields(secs: int, minute: int)
    requires
        minute == secs / 60,
    ensures
        secs / 86400 == minute / 1440,
        calendar::hour_of(secs) == minute % 1440 / 60,
        calendar::minute_of(secs) == minute % 60,
        minute == 1440 * (minute / 1440) + 60 * (minute % 1440 / 60) + minute % 60,
{
    let (day, rest) = (minute / 1440, minute % 1440);
    let (hour, part) = (rest / 60, rest % 60);
    let second = secs % 60;
    assert(secs == 60 * minute + second && 0 <= second < 60);
    assert(minute == 1440 * day + rest && 0 <= rest < 1440);
    assert(rest == 60 * hour + part && 0 <= part < 60);
    assert(secs / 86400 == day && secs % 86400 == 60 * rest + second) by {
        lemma_fundamental_div_mod_converse(secs, 86400, day, 60 * rest + second);
    }
    assert((60 * rest + second) / 3600 == hour) by {
        lemma_fundamental_div_mod_converse(
            60 * rest + second,
            3600,
            hour,
            60 * part + second,
        );
    }
    assert(secs % 3600 == 60 * part + second) by {
        lemma_fundamental_div_mod_converse(secs, 3600, 24 * day + hour, 60 * part + second);
    }
    assert((60 * part + second) / 60 == part) by {
        lemma_fundamental_div_mod_converse(60 * part + second, 60, part, second);
    }
    assert(minute % 60 == part) by {
        lemma_fundamental_div_mod_converse(minute, 60, 24 * day + hour, part);
    }
}

proof fn lemma_same_minute(secs: int, other: int)
    requires
        secs / 60 == other / 60,
    ensures
        date_text(secs) == date_text(other),
        clock_text(secs) == clock_text(other),
{
    lemma_minute_fields(secs, secs / 60);
    lemma_minute_fields(other, secs / 60);
}

} // verus!
