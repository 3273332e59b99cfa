use vstd::prelude::*;

use crate::graphics::{rect_coords_fit, Graphics};
use crate::inky::{lemma_painted_nothing, lemma_painted_same_region, lemma_painted_union, painted, Color, Panel};
use crate::rect::{fits_i32, Rect};

verus! {

/// The location data of a forecast point.
pub struct Points {
    pub properties: PointsProperties,
}

/// The forecast office grid cell of a point and the place it is near.
pub struct PointsProperties {
    pub grid_id: String,
    pub grid_x: i32,
    pub grid_y: i32,
    pub relative_location: RelativeLocation,
}

/// The place a forecast point is near.
pub struct RelativeLocation {
    pub properties: RelativeLocationProperties,
}

/// The city and state a forecast point is near.
pub struct RelativeLocationProperties {
    pub city: String,
    pub state: String,
}

/// The position just after the `n`-th `'/'` of `s` found from position `i` on, or `-1` when
/// there are fewer.
pub open spec fn after_slashes(s: Seq<char>, n: nat, i: int) -> int
    decreases s.len() - i, n,
{
    if n == 0 {
        i
    } else if i < 0 || i >= s.len() {
        -1
    } else if s[i] == '/' {
        after_slashes(s, (n - 1) as nat, i + 1)
    } else {
        after_slashes(s, n, i + 1)
    }
}

/// Whether `c` ends the name part of an icon URL segment.
pub open spec fn is_icon_delimiter(c: char) -> bool {
    c == '/' || c == ',' || c == '?'
}

/// The first position at or after `j` holding a delimiter, or the length of `s`.
pub open spec fn name_end(s: Seq<char>, j: int) -> int
    decreases s.len() - j,
{
    if j < 0 || j >= s.len() {
        s.len() as int
    } else if is_icon_delimiter(s[j]) {
        j
    } else {
        name_end(s, j + 1)
    }
}

/// The icon name in a forecast icon URL: its seventh `/`-separated field, cut at the first
/// `,` (a second condition) and at the first `?` (the query).
pub open spec fn icon_name(s: Seq<char>) -> Seq<char> {
    let start = after_slashes(s, 6, 0);
    s.subrange(start, name_end(s, start))
}

/// The bitmap drawn for an icon name: names sharing a picture map to their combined name.
pub open spec fn icon_bitmap_name(name: Seq<char>) -> Seq<char> {
    if name == "wind_few"@ || name == "wind_sct"@ {
        "wind_few,wind_sct"@
    } else if name == "rain_snow"@ || name == "rain_sleet"@ {
        "rain_snow,rain_sleet"@
    } else if name == "fzra"@ || name == "rain_fzra"@ || name == "snow_fzra"@ {
        "fzra,rain_fzra,snow_fzra"@
    } else if name == "snow_sleet"@ || name == "sleet"@ {
        "snow_sleet,sleet"@
    } else if name == "rain"@ || name == "rain_showers"@ {
        "rain,rain_showers"@
    } else if name == "tsra"@ || name == "tsra_sct"@ {
        "tsra,tsra_sct"@
    } else if name == "hurricane"@ || name == "tropical_storm"@ {
        "hurricane,tropical_storm"@
    } else {
        name
    }
}

proof fn lemma_after_slashes_range(s: Seq<char>, n: nat, i: int)
    requires
        0 <= i <= s.len(),
    ensures
        after_slashes(s, n, i) == -1 || i <= after_slashes(s, n, i) <= s.len(),
    decreases s.len() - i, n,
{
    if n > 0 && i < s.len() {
        if s[i] == '/' {
            lemma_after_slashes_range(s, (n - 1) as nat, i + 1);
        } else {
            lemma_after_slashes_range(s, n, i + 1);
        }
    }
}

proof fn lemma_name_end_range(s: Seq<char>, j: int)
    requires
        0 <= j <= s.len(),
    ensures
        j <= name_end(s, j) <= s.len(),
    decreases s.len() - j,
{
    if j < s.len() && !is_icon_delimiter(s[j]) {
        lemma_name_end_range(s, j + 1);
    }
}

/// The name of the bitmap that shows a forecast icon, from the icon's URL; the URL must have
/// at least six `/`.
pub fn icon_to_bitmap(icon: &str) -> (bitmap: &str)
    requires
        after_slashes(icon@, 6, 0) != -1,
    ensures
        bitmap@ == icon_bitmap_name(icon_name(icon@)),
{
    let ghost s = icon@;
    let len = icon.unicode_len();
    let mut i: usize = 0;
    let mut slashes: usize = 0;
    while slashes < 6
        invariant
            len == s.len(),
            s == icon@,
            i <= len,
            slashes <= 6,
            after_slashes(s, (6 - slashes) as nat, i as int) == after_slashes(s, 6, 0),
            after_slashes(s, 6, 0) != -1,
        decreases len - i,
    {
        proof {
            lemma_after_slashes_range(s, (6 - slashes) as nat, i as int);
        }
        if icon.get_char(i) == '/' {
            slashes += 1;
        }
        i += 1;
    }
    let start = i;
    let mut end = i;
    proof {
        lemma_name_end_range(s, start as int);
    }
    while end < len
        invariant
            len == s.len(),
            s == icon@,
            start <= end <= len,
            name_end(s, start as int) == name_end(s, end as int),
        ensures
            end == name_end(s, start as int),
        decreases len - end,
    {
        let c = icon.get_char(end);
        if c == '/' || c == ',' || c == '?' {
            break;
        }
        end += 1;
    }
    assert(start as int == after_slashes(s, 6, 0));
    let name = icon.substring_char(start, end);
    assert(name@ == icon_name(s));
    let key = name.to_owned();
    if key == "wind_few".to_owned() || key == "wind_sct".to_owned() {
        "wind_few,wind_sct"
    } else if key == "rain_snow".to_owned() || key == "rain_sleet".to_owned() {
        "rain_snow,rain_sleet"
    } else if key == "fzra".to_owned() || key == "rain_fzra".to_owned() || key == "snow_fzra".to_owned() {
        "fzra,rain_fzra,snow_fzra"
    } else if key == "snow_sleet".to_owned() || key == "sleet".to_owned() {
        "snow_sleet,sleet"
    } else if key == "rain".to_owned() || key == "rain_showers".to_owned() {
        "rain,rain_showers"
    } else if key == "tsra".to_owned() || key == "tsra_sct".to_owned() {
        "tsra,tsra_sct"
    } else if key == "hurricane".to_owned() || key == "tropical_storm".to_owned() {
        "hurricane,tropical_storm"
    } else {
        name
    }
}

/// The label under the hour axis of a forecast chart for an hour of the day: on every sixth
/// hour its 12-hour clock value followed by `a` or `p`, elsewhere nothing.
pub open spec fn axis_hour_label(hour: int) -> Seq<char> {
    if hour == 0 {
        "12a"@
    } else if hour == 6 {
        "6a"@
    } else if hour == 12 {
        "12p"@
    } else if hour == 18 {
        "6p"@
    } else {
        seq![]
    }
}

/// The hour of the 12-hour clock that shows `hour` of the day: 12 for midnight and noon.
pub open spec fn twelve_hour_clock(hour: int) -> int {
    if hour % 12 == 0 {
        12
    } else {
        hour % 12
    }
}

/// The decimal numeral of `n`, for `n` from 0 to 19.
pub open spec fn small_numeral(n: int) -> Seq<char> {
    if n < 10 {
        seq![((n + 48) as char)]
    } else {
        seq!['1', ((n - 10 + 48) as char)]
    }
}

/// The hour axis is labelled every six hours and nowhere else: the label of an hour of the day
/// is not empty exactly when the hour is a multiple of six, and it then reads as the hour on the
/// 12-hour clock followed by `a` before noon and `p` from noon on.
pub proof fn lemma_axis_labels_every_six_hours(hour: int)
    requires
        0 <= hour <= 23,
    ensures
        (axis_hour_label(hour).len() > 0) == (hour % 6 == 0),
        hour % 6 == 0 ==> axis_hour_label(hour) == small_numeral(twelve_hour_clock(hour)) + (if hour < 12 {
            seq!['a']
        } else {
            seq!['p']
        }),
{
    reveal_strlit("12a");
    reveal_strlit("6a");
    reveal_strlit("12p");
    reveal_strlit("6p");
    assert(small_numeral(12) + seq!['a'] =~= "12a"@);
    assert(small_numeral(6) + seq!['a'] =~= "6a"@);
    assert(small_numeral(12) + seq!['p'] =~= "12p"@);
    assert(small_numeral(6) + seq!['p'] =~= "6p"@);
}

/// Whether `s` is the axis label of some hour of the day.
pub open spec fn is_axis_label(s: Seq<char>) -> bool {
    exists|hour: int| 0 <= hour <= 23 && axis_hour_label(hour) == s
}

/// The label under the hour axis for `hour`.
pub fn hour_label(hour: i8) -> (r: String)
    requires
        0 <= hour <= 23,
    ensures
        r@ == axis_hour_label(hour as int),
{
    match hour {
        0 => "12a".to_owned(),
        6 => "6a".to_owned(),
        12 => "12p".to_owned(),
        18 => "6p".to_owned(),
        _ => String::new(),
    }
}

/// The format in which forecast periods give their start times: an RFC 3339 date and time
/// followed by a UTC offset or a time zone name.
pub open spec fn start_time_format() -> Seq<char> {
    "%Y-%m-%dT%H:%M:%S%:Q"@
}

/// Whether `c` is an ASCII decimal digit.
pub open spec fn is_digit(c: char) -> bool {
    '0' <= c && c <= '9'
}

/// The value of the decimal digit `c`.
pub open spec fn digit_value(c: char) -> int {
    (c as int) - ('0' as int)
}

/// The number written by the two digits of `s` at `i` and `i + 1`.
pub open spec fn two_digits(s: Seq<char>, i: int) -> int {
    10 * digit_value(s[i]) + digit_value(s[i + 1])
}

/// The year of a start time written `YYYY-MM-DDTHH:MM:SS±hh:mm`.
pub open spec fn start_year(s: Seq<char>) -> int {
    100 * two_digits(s, 0) + two_digits(s, 2)
}

/// The month of a start time written `YYYY-MM-DDTHH:MM:SS±hh:mm`.
pub open spec fn start_month(s: Seq<char>) -> int {
    two_digits(s, 5)
}

/// The day of the month of a start time written `YYYY-MM-DDTHH:MM:SS±hh:mm`.
pub open spec fn start_day(s: Seq<char>) -> int {
    two_digits(s, 8)
}

/// The hour of a start time written `YYYY-MM-DDTHH:MM:SS±hh:mm`.
pub open spec fn start_hour(s: Seq<char>) -> int {
    two_digits(s, 11)
}

/// The UTC offset of a start time written `YYYY-MM-DDTHH:MM:SS±hh:mm`, in seconds.
pub open spec fn start_offset_seconds(s: Seq<char>) -> int {
    let size = two_digits(s, 20) * 3600 + two_digits(s, 23) * 60;
    if s[19] == '-' {
        -size
    } else {
        size
    }
}

/// Whether `year` is a leap year of the Gregorian calendar.
pub open spec fn is_leap_year(year: int) -> bool {
    year % 4 == 0 && (year % 100 != 0 || year % 400 == 0)
}

/// The number of days in `month` of `year`.
pub open spec fn days_in_month(year: int, month: int) -> int {
    if month == 2 {
        if is_leap_year(year) {
            29
        } else {
            28
        }
    } else if month == 4 || month == 6 || month == 9 || month == 11 {
        30
    } else {
        31
    }
}

/// The number of days of `year` before the first of `month`.
pub open spec fn days_before_month(year: int, month: int) -> int {
    let common: int = if month == 1 {
        0
    } else if month == 2 {
        31
    } else if month == 3 {
        59
    } else if month == 4 {
        90
    } else if month == 5 {
        120
    } else if month == 6 {
        151
    } else if month == 7 {
        181
    } else if month == 8 {
        212
    } else if month == 9 {
        243
    } else if month == 10 {
        273
    } else if month == 11 {
        304
    } else {
        334
    };
    if month > 2 && is_leap_year(year) {
        common + 1
    } else {
        common
    }
}

/// The number of days from 1970-01-01 to the given date of the Gregorian calendar.
pub open spec fn days_since_epoch(year: int, month: int, day: int) -> int {
    let y = year - 1;
    365 * y + y / 4 - y / 100 + y / 400 + days_before_month(year, month) + day - 1 - 719162
}

/// Whether `s` is a start time in the fixed-offset form `YYYY-MM-DDTHH:MM:SS±hh:mm` naming a
/// real date and time: a year up to 9998, a month, a day of that month, an hour, a minute and
/// a second of the day (no leap second), and an offset of less than a day.
pub open spec fn fixed_offset_start(s: Seq<char>) -> bool {
    &&& s.len() == 25
    &&& is_digit(s[0]) && is_digit(s[1]) && is_digit(s[2]) && is_digit(s[3])
    &&& s[4] == '-' && is_digit(s[5]) && is_digit(s[6])
    &&& s[7] == '-' && is_digit(s[8]) && is_digit(s[9])
    &&& s[10] == 'T' && is_digit(s[11]) && is_digit(s[12])
    &&& s[13] == ':' && is_digit(s[14]) && is_digit(s[15])
    &&& s[16] == ':' && is_digit(s[17]) && is_digit(s[18])
    &&& (s[19] == '+' || s[19] == '-') && is_digit(s[20]) && is_digit(s[21])
    &&& s[22] == ':' && is_digit(s[23]) && is_digit(s[24])
    &&& start_year(s) <= 9998
    &&& 1 <= start_month(s) <= 12
    &&& 1 <= start_day(s) <= days_in_month(start_year(s), start_month(s))
    &&& start_hour(s) <= 23
    &&& two_digits(s, 14) <= 59
    &&& two_digits(s, 17) <= 59
    &&& two_digits(s, 20) <= 23
    &&& two_digits(s, 23) <= 59
}

/// The instant, in nanoseconds since the Unix epoch, at which the day of a fixed-offset start
/// time began, midnight of its date at its offset.
pub open spec fn day_start_nanos(s: Seq<char>) -> int {
    (days_since_epoch(start_year(s), start_month(s), start_day(s)) * 86400 - start_offset_seconds(s))
        * 1_000_000_000
}

/// Parses `text` in `format` with `jiff::Zoned::strptime` and gives the hour of the parsed time
/// (`Zoned::hour`) with the instant its day began (`Zoned::start_of_day`, then
/// `Timestamp::as_nanosecond`); `None` when the text does not parse, and no instant when the day
/// has no start. The hour lies in `0..=23`. For a start time in the fixed-offset form
/// `YYYY-MM-DDTHH:MM:SS±hh:mm` parsed in `%Y-%m-%dT%H:%M:%S%:Q`, jiff reads the offset as a fixed
/// time zone, so the hour is the one written and the day began at midnight of the written date at
/// that offset. Nothing more is stated: a zone name in place of the offset is resolved with the
/// time zone database of the machine.
#[verifier::external_body]
fn parse_start(format: &str, text: &str) -> (r: Option<(i8, Option<i128>)>)
    ensures
        r matches Some((hour, _)) ==> 0 <= hour <= 23,
        format@ == start_time_format() && fixed_offset_start(text@) ==> r == Some(
            (start_hour(text@) as i8, Some(day_start_nanos(text@) as i128)),
        ),
{
    match jiff::Zoned::strptime(format, text) {
        Ok(time) => Some(
            (
                time.hour(),
                match time.start_of_day() {
                    Ok(day) => Some(day.timestamp().as_nanosecond()),
                    Err(_) => None,
                },
            ),
        ),
        Err(_) => None,
    }
}

/// The hour of a forecast start time and the instant its day began, in nanoseconds since the
/// Unix epoch; `None` when it does not parse, and no instant when its day has no start. A start
/// time in the fixed-offset form gives the hour written and midnight of its date at its offset.
pub fn start_time(text: &str) -> (r: Option<(i8, Option<i128>)>)
    ensures
        r matches Some((hour, _)) ==> 0 <= hour <= 23,
        fixed_offset_start(text@) ==> r == Some(
            (start_hour(text@) as i8, Some(day_start_nanos(text@) as i128)),
        ),
{
    parse_start("%Y-%m-%dT%H:%M:%S%:Q", text)
}

/// The labels under the hour axis of a chart of forecast periods starting at `start_times`:
/// one per period, the label of the hour at which it starts. `None` when a start time does not
/// parse; start times in the fixed-offset form always do.
pub fn axis_labels(start_times: &Vec<String>) -> (r: Option<Vec<String>>)
    ensures
        r matches Some(labels) ==> labels.len() == start_times.len() && forall|i: int|
            0 <= i < labels.len() ==> is_axis_label(#[trigger] labels@[i]@) && (fixed_offset_start(
                start_times@[i]@,
            ) ==> labels@[i]@ == axis_hour_label(start_hour(start_times@[i]@))),
        (forall|i: int| 0 <= i < start_times.len() ==> fixed_offset_start(#[trigger] start_times@[i]@))
            ==> r is Some,
{
    let mut labels: Vec<String> = Vec::new();
    let mut i: usize = 0;
    while i < start_times.len()
        invariant
            i <= start_times.len(),
            labels.len() == i,
            forall|j: int|
                0 <= j < labels.len() ==> is_axis_label(#[trigger] labels@[j]@) && (fixed_offset_start(
                    start_times@[j]@,
                ) ==> labels@[j]@ == axis_hour_label(start_hour(start_times@[j]@))),
        decreases start_times.len() - i,
    {
        match start_time(start_times[i].as_str()) {
            None => {
                return None;
            },
            Some((hour, _)) => {
                let label = hour_label(hour);
                assert(is_axis_label(label@));
                labels.push(label);
            },
        }
        i += 1;
    }
    Some(labels)
}

/// The first index after the first whose day start differs from the first one's, if any.
pub fn first_later_day(days: &Vec<i128>) -> (r: Option<usize>)
    ensures
        r matches Some(i) ==> 0 < i < days.len() && days@[i as int] != days@[0] && forall|j: int|
            0 <= j < i ==> #[trigger] days@[j] == days@[0],
        r is None ==> forall|j: int| 0 <= j < days.len() ==> #[trigger] days@[j] == days@[0],
{
    if days.len() == 0 {
        return None;
    }
    let first = days[0];
    let mut i: usize = 1;
    while i < days.len()
        invariant
            1 <= i <= days.len(),
            first == days@[0],
            forall|j: int| 0 <= j < i ==> #[trigger] days@[j] == first,
        decreases days.len() - i,
    {
        if days[i] != first {
            return Some(i);
        }
        i += 1;
    }
    None
}

/// Whether the day of every start time in `times` before `end` began when that of the first one
/// did.
pub open spec fn same_day_start_before(times: Seq<String>, end: int) -> bool {
    forall|j: int| 0 <= j < end ==> #[trigger] day_start_nanos(times[j]@) == day_start_nanos(times[0]@)
}

/// The index of the first forecast period that starts on a later day than the first one:
/// the start of each period's day is found, in order, until one differs from that of the first
/// period (`first_later_day` decides). `None` when none differs, or when a start time met on the
/// way does not parse or has no day start; start times in the fixed-offset form always do.
pub fn first_period_of_next_day(start_times: &Vec<String>) -> (r: Option<usize>)
    ensures
        r matches Some(i) ==> 0 < i < start_times.len(),
        r matches Some(i) ==> ((forall|j: int| 0 <= j <= i ==> fixed_offset_start(#[trigger] start_times@[j]@))
            ==> day_start_nanos(start_times@[i as int]@) != day_start_nanos(start_times@[0]@)
            && same_day_start_before(start_times@, i as int)),
        (forall|j: int| 0 <= j < start_times.len() ==> fixed_offset_start(#[trigger] start_times@[j]@))
            ==> match r {
            Some(i) => day_start_nanos(start_times@[i as int]@) != day_start_nanos(start_times@[0]@)
                && same_day_start_before(start_times@, i as int),
            None => same_day_start_before(start_times@, start_times.len() as int),
        },
{
    let mut days: Vec<i128> = Vec::new();
    let mut i: usize = 0;
    while i < start_times.len()
        invariant
            i <= start_times.len(),
            days.len() == i,
            forall|j: int| 0 <= j < days.len() ==> #[trigger] days@[j] == days@[0],
            forall|j: int|
                0 <= j < days.len() && fixed_offset_start(start_times@[j]@) ==> #[trigger] days@[j]
                    == day_start_nanos(start_times@[j]@),
        decreases start_times.len() - i,
    {
        let day = match start_time(start_times[i].as_str()) {
            None => {
                return None;
            },
            Some((_, day)) => day,
        };
        match day {
            None => {
                return None;
            },
            Some(day) => {
                days.push(day);
                if i > 0 && day != days[0] {
                    let r = first_later_day(&days);
                    proof {
                        if r is Some {
                            assert(r == Some(i));
                        }
                        if forall|j: int| 0 <= j <= i ==> fixed_offset_start(#[trigger] start_times@[j]@) {
                            assert(days@[i as int] == day_start_nanos(start_times@[i as int]@));
                            assert(days@[0] == day_start_nanos(start_times@[0]@));
                            assert forall|j: int| 0 <= j < i implies #[trigger] day_start_nanos(start_times@[j]@)
                                == day_start_nanos(start_times@[0]@) by {
                                assert(days@[j] == days@[0]);
                            }
                        }
                    }
                    return r;
                }
            },
        }
        i += 1;
    }
    let r = first_later_day(&days);
    proof {
        if forall|j: int| 0 <= j < start_times.len() ==> fixed_offset_start(#[trigger] start_times@[j]@) {
            assert forall|j: int| 0 <= j < start_times.len() implies #[trigger] day_start_nanos(start_times@[j]@)
                == day_start_nanos(start_times@[0]@) by {
                assert(days@[j] == days@[0]);
            }
        }
    }
    r
}

/// Cell `j` of the summary forecast grid (row after row, two to a row) without its left
/// border, which cells of the right column have.
pub open spec fn summary_unbordered_left(cell: Rect, j: int) -> Rect {
    if j % 2 != 0 {
        cell.split_left(1).0
    } else {
        cell
    }
}

/// What is left of cell `j` of the summary forecast grid for its content: a one-pixel border is
/// taken off the left of each cell of the right column and off the top of each cell below the
/// first row.
pub open spec fn summary_content(cell: Rect, j: int) -> Rect {
    if j / 2 != 0 {
        summary_unbordered_left(cell, j).split_top(1).0
    } else {
        summary_unbordered_left(cell, j)
    }
}

/// The border pixels of cell `j`.
pub open spec fn summary_border(cell: Rect, j: int, x: int, y: int) -> bool {
    ||| (j % 2 != 0 && cell.split_left(1).1.contains(x, y))
    ||| (j / 2 != 0 && summary_unbordered_left(cell, j).split_top(1).1.contains(x, y))
}

/// Whether taking the borders off cell `j` keeps every coordinate in range.
pub open spec fn summary_cell_fits(cell: Rect, j: int) -> bool {
    let inner = summary_unbordered_left(cell, j);
    &&& j % 2 != 0 ==> fits_i32(cell.x + 1) && fits_i32(cell.width - 1) && rect_coords_fit(cell.split_left(1).1)
    &&& j / 2 != 0 ==> fits_i32(inner.y + 1) && fits_i32(inner.height - 1) && rect_coords_fit(
        inner.split_top(1).1,
    )
}

/// Draws the borders of cell `j` of the summary forecast grid (row after row, two to a row)
/// and gives what is left for its content: a one-pixel black border on the left of each cell of
/// the right column and on the top of each cell below the first row.
pub fn frame_summary_cell<P: Panel>(inky: &mut P, graphics: &Graphics, cell: Rect, j: usize) -> (content: Rect)
    requires
        old(inky).wf(),
        summary_cell_fits(cell, j as int),
    ensures
        final(inky).wf(),
        content == summary_content(cell, j as int),
        painted(
            old(inky).pixels(),
            final(inky).pixels(),
            |x: int, y: int| summary_border(cell, j as int, x, y),
            Color::Black,
        ),
{
    let ghost start = inky.pixels();
    let mut content = cell;
    if j % 2 != 0 {
        let border = content.split_off_left(1);
        graphics.draw_rect(inky, &border, Color::Black);
    } else {
        proof {
            lemma_painted_nothing(start, Color::Black);
        }
    }
    let ghost middle = inky.pixels();
    assert(content == summary_unbordered_left(cell, j as int));
    if j / 2 != 0 {
        let border = content.split_off_top(1);
        graphics.draw_rect(inky, &border, Color::Black);
    } else {
        proof {
            lemma_painted_nothing(middle, Color::Black);
        }
    }
    proof {
        let left = |x: int, y: int| j % 2 != 0 && cell.split_left(1).1.contains(x, y);
        let top = |x: int, y: int| j / 2 != 0 && summary_unbordered_left(cell, j as int).split_top(1).1.contains(x, y);
        if j % 2 != 0 {
            lemma_painted_same_region(start, middle, |x: int, y: int| cell.split_left(1).1.contains(x, y), left, Color::Black);
        } else {
            lemma_painted_same_region(start, middle, |x: int, y: int| false, left, Color::Black);
        }
        if j / 2 != 0 {
            lemma_painted_same_region(
                middle,
                inky.pixels(),
                |x: int, y: int| summary_unbordered_left(cell, j as int).split_top(1).1.contains(x, y),
                top,
                Color::Black,
            );
        } else {
            lemma_painted_same_region(middle, inky.pixels(), |x: int, y: int| false, top, Color::Black);
        }
        lemma_painted_union(start, middle, inky.pixels(), left, top, Color::Black);
        lemma_painted_same_region(
            start,
            inky.pixels(),
            |x: int, y: int| left(x, y) || top(x, y),
            |x: int, y: int| summary_border(cell, j as int, x, y),
            Color::Black,
        );
    }
    content
}

} // verus!
