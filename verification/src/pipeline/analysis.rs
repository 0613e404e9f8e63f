//! From a classified track to its landfall, its peak winds inside the region,
//! and the merged table of all tracks.

use vstd::prelude::*;
use vstd::std_specs::cmp::OrdSpec;
use vstd::std_specs::iter::IteratorSpec;
use std::collections::BTreeMap;
use crate::pipeline::data::{
    FinalAnalysisView, HurricaneFinalAnalysis, HurricaneLandfallAnalysis, HurricanePathSnapshot,
    HurricaneTrack, LandfallAnalysisView, TrackView,
};

verus! {

/// Why a track that reached the region has no landfall instant.
#[derive(Debug, Clone, Copy, PartialEq, Eq, Structural)]
pub enum LandfallError {
    /// The classification does not hold one flag per observation.
    ClassificationMismatch,
    /// The two observations around the entry are no distance apart, so there
    /// is no chord to interpolate along.
    CoincidentPositions,
    /// The interpolated instant is not a second count that fits the type.
    InstantOutOfRange,
}

/// `n` flags are outside, and the one after them, if any, is inside.
pub open spec fn is_entry_point(flags: Seq<bool>, n: int) -> bool {
    &&& 0 <= n <= flags.len()
    &&& forall|j: int| 0 <= j < n ==> !flags[j]
    &&& n < flags.len() ==> flags[n]
}

/// Flag `i` is inside and none after it is.
pub open spec fn is_last_inside(flags: Seq<bool>, i: int) -> bool {
    &&& 0 <= i < flags.len()
    &&& flags[i]
    &&& forall|j: int| i < j < flags.len() ==> !flags[j]
}

/// Some flag is inside.
pub open spec fn enters(flags: Seq<bool>) -> bool {
    exists|i: int| 0 <= i < flags.len() && flags[i]
}

/// The index of the first inside flag, or the number of flags if there is none.
pub open spec fn entry_index(flags: Seq<bool>) -> int {
    choose|n: int| is_entry_point(flags, n)
}

/// The index of the last inside flag, where there is one.
pub open spec fn last_inside_index(flags: Seq<bool>) -> int {
    choose|i: int| is_last_inside(flags, i)
}

/// Looking onwards from a place before which no flag is inside finds an
/// entry point: every classification has one.
pub proof fn lemma_entry_point_exists(flags: Seq<bool>, n: int)
    requires
        0 <= n <= flags.len(),
        forall|j: int| 0 <= j < n ==> !flags[j],
    ensures
        exists|m: int| is_entry_point(flags, m),
    decreases flags.len() - n,
{
    if n == flags.len() || flags[n] {
        assert(is_entry_point(flags, n));
    } else {
        lemma_entry_point_exists(flags, n + 1);
    }
}

/// A classification has no more than one entry point.
pub proof fn lemma_entry_point_unique(flags: Seq<bool>, n: int)
    requires
        is_entry_point(flags, n),
    ensures
        entry_index(flags) == n,
{
    let m = entry_index(flags);
    assert(is_entry_point(flags, m));
    if m < n {
        assert(!flags[m]);
    } else if n < m {
        assert(!flags[n]);
    }
}

/// A classification has at most one last inside flag.
pub proof fn lemma_last_inside_unique(flags: Seq<bool>, i: int)
    requires
        is_last_inside(flags, i),
    ensures
        last_inside_index(flags) == i,
        enters(flags),
{
    let m = last_inside_index(flags);
    assert(is_last_inside(flags, m));
}

/// The three observations the landfall estimate is built on, by index.
#[derive(Debug, Clone, Copy, PartialEq, Eq, Structural)]
pub struct TrackScan {
    /// The last observation before the storm first was inside.
    pub last_outside: Option<usize>,
    /// The first observation inside.
    pub first_inside: Option<usize>,
    /// The last observation inside, whatever lies between the two.
    pub last_inside: Option<usize>,
}

impl TrackScan {
    /// The scan names the right observations of a track classified as `flags`.
    pub open spec fn describes(self, flags: Seq<bool>) -> bool {
        &&& match self.first_inside {
            Some(i) => i < flags.len() && is_entry_point(flags, i as int),
            None => is_entry_point(flags, flags.len() as int),
        }
        &&& match self.last_outside {
            Some(i) => is_entry_point(flags, i + 1),
            None => is_entry_point(flags, 0),
        }
        &&& match self.last_inside {
            Some(i) => is_last_inside(flags, i as int),
            None => !enters(flags),
        }
    }
}

/// Walks the classification once, in order, and keeps the three indices.
pub fn scan_track(over_florida: &Vec<bool>) -> (scan: TrackScan)
    ensures
        scan.describes(over_florida@),
{
    let mut scan = TrackScan { last_outside: None, first_inside: None, last_inside: None };
    let mut i: usize = 0;
    while i < over_florida.len()
        invariant
            i <= over_florida.len(),
            scan.describes(over_florida@.take(i as int)),
        decreases over_florida.len() - i,
    {
        let ghost before = over_florida@.take(i as int);
        let ghost after = over_florida@.take(i + 1);
        proof {
            assert(forall|j: int| 0 <= j < i ==> before[j] == after[j]);
            assert(after[i as int] == over_florida@[i as int]);
        }
        if over_florida[i] {
            if scan.first_inside.is_none() {
                scan.first_inside = Some(i);
            }
            scan.last_inside = Some(i);
        } else {
            if scan.first_inside.is_none() {
                scan.last_outside = Some(i);
            }
            proof {
                if enters(after) {
                    let w = choose|w: int| 0 <= w < after.len() && after[w];
                    assert(before[w]);
                }
            }
        }
        i += 1;
    }
    assert(over_florida@.take(i as int) == over_florida@);
    scan
}

/// The instant a share `to_boundary / chord` of the way from `outside` to
/// `inside`, rounded down to a whole second.
pub open spec fn interpolated_instant(
    outside: int,
    inside: int,
    chord: int,
    to_boundary: int,
) -> int
    recommends
        chord > 0,
{
    outside + ((inside - outside) * to_boundary) / chord
}

/// What [`interpolate_landfall`] returns.
pub open spec fn interpolation(outside: i64, inside: i64, chord: u32, to_boundary: u32) -> Result<
    i64,
    LandfallError,
> {
    let instant = interpolated_instant(
        outside as int,
        inside as int,
        chord as int,
        to_boundary as int,
    );
    if chord == 0 {
        Err(LandfallError::CoincidentPositions)
    } else if i64::MIN <= instant <= i64::MAX {
        Ok(instant as i64)
    } else {
        Err(LandfallError::InstantOutOfRange)
    }
}

/// Rounding a negative quotient down is rounding its opposite up.
proof fn lemma_floor_of_negative(p: int, d: int)
    requires
        p < 0,
        d > 0,
    ensures
        p / d == -((-p + d - 1) / d),
{
    let k = (-p + d - 1) / d;
    vstd::arithmetic::div_mod::lemma_fundamental_div_mod(-p + d - 1, d);
    vstd::arithmetic::div_mod::lemma_mod_bound(-p + d - 1, d);
    let r = p + k * d;
    assert(0 <= r < d);
    assert(p == d * (-k) + r) by (nonlinear_arith)
        requires
            r == p + k * d,
    ;
    vstd::arithmetic::div_mod::lemma_fundamental_div_mod_converse(p, d, -k, r);
}

/// Estimates when a storm crossed into the region between two observations,
/// the earlier outside and the later inside: the time between the two is
/// split as the straight line between the two positions is split by the
/// region's edge.  `chord` is the distance between the positions and
/// `to_boundary` the distance from the outside position to the region, both in
/// one unit.
pub fn interpolate_landfall(outside: i64, inside: i64, chord: u32, to_boundary: u32) -> (landfall:
    Result<i64, LandfallError>)
    ensures
        landfall == interpolation(outside, inside, chord, to_boundary),
{
    if chord == 0 {
        return Err(LandfallError::CoincidentPositions);
    }
    let span: i128 = inside as i128 - outside as i128;
    let share: i128 = to_boundary as i128;
    let whole: i128 = chord as i128;
    assert(-0x1_0000_0000_0000_0000_0000_0000 < span * share < 0x1_0000_0000_0000_0000_0000_0000)
        by (nonlinear_arith)
        requires
            -0x1_0000_0000_0000_0000 < span < 0x1_0000_0000_0000_0000,
            0 <= share < 0x1_0000_0000,
    ;
    let product: i128 = span * share;
    let offset: i128 = if product >= 0 {
        product / whole
    } else {
        proof {
            lemma_floor_of_negative(product as int, whole as int);
            vstd::arithmetic::div_mod::lemma_div_pos_is_pos(-product + whole - 1, whole as int);
            vstd::arithmetic::div_mod::lemma_div_is_ordered_by_denominator(
                -product + whole - 1,
                1,
                whole as int,
            );
        }
        -((-product + whole - 1) / whole)
    };
    assert(offset == (span * share) / (whole as int));
    proof {
        if product >= 0 {
            vstd::arithmetic::div_mod::lemma_div_pos_is_pos(product as int, whole as int);
            vstd::arithmetic::div_mod::lemma_div_is_ordered_by_denominator(
                product as int,
                1,
                whole as int,
            );
        }
    }
    let instant: i128 = outside as i128 + offset;
    if instant < i64::MIN as i128 || instant > i64::MAX as i128 {
        Err(LandfallError::InstantOutOfRange)
    } else {
        Ok(instant as i64)
    }
}

/// An instant interpolated no further than the chord is long lies between the
/// two observations, so it is a second count that fits.
pub proof fn lemma_interpolation_within_bracket(
    outside: i64,
    inside: i64,
    chord: u32,
    to_boundary: u32,
)
    requires
        0 < chord,
        to_boundary <= chord,
    ensures
        interpolation(outside, inside, chord, to_boundary) matches Ok(landfall) && (outside
            <= inside ==> outside <= landfall <= inside) && (inside <= outside ==> inside
            <= landfall <= outside),
        to_boundary == 0 ==> interpolation(outside, inside, chord, to_boundary) == Ok::<
            i64,
            LandfallError,
        >(outside),
        to_boundary == chord ==> interpolation(outside, inside, chord, to_boundary) == Ok::<
            i64,
            LandfallError,
        >(inside),
{
    let span = inside - outside;
    let product = span * to_boundary;
    let offset = product / (chord as int);
    vstd::arithmetic::div_mod::lemma_fundamental_div_mod(product, chord as int);
    vstd::arithmetic::div_mod::lemma_mod_bound(product, chord as int);
    let rest = product % (chord as int);
    assert(product == chord * offset + rest);
    if span >= 0 {
        assert(0 <= product <= span * chord) by (nonlinear_arith)
            requires
                product == span * to_boundary,
                0 <= to_boundary <= chord,
                span >= 0,
        ;
        assert(0 <= offset <= span) by (nonlinear_arith)
            requires
                product == chord * offset + rest,
                0 <= rest < chord,
                0 <= product <= span * chord,
        ;
    } else {
        assert(span * chord <= product <= 0) by (nonlinear_arith)
            requires
                product == span * to_boundary,
                0 <= to_boundary <= chord,
                span < 0,
        ;
        assert(span <= offset <= 0) by (nonlinear_arith)
            requires
                product == chord * offset + rest,
                0 <= rest < chord,
                span * chord <= product <= 0,
        ;
    }
    if to_boundary == 0 {
        assert(product == 0) by (nonlinear_arith)
            requires
                product == span * to_boundary,
                to_boundary == 0,
        ;
        assert(offset == 0);
    }
    if to_boundary == chord {
        assert(offset == span) by (nonlinear_arith)
            requires
                product == chord * offset + rest,
                product == span * chord,
                0 <= rest < chord,
        ;
    }
}

/// The landfall instant of a track whose first inside observation is number
/// `first`: that observation's own instant where nothing was seen outside
/// before it, else the instant interpolated between it and the one before.
pub open spec fn landfall_instant(
    path: Seq<HurricanePathSnapshot>,
    first: int,
    chord: u32,
    to_boundary: u32,
) -> Result<i64, LandfallError>
    recommends
        0 <= first < path.len(),
{
    if first == 0 {
        Ok(path[0].datetime)
    } else {
        interpolation(path[first - 1].datetime, path[first].datetime, chord, to_boundary)
    }
}

/// What [`estimate_landfall`] returns, on the views of its arguments.
pub open spec fn landfall_outcome(
    track: TrackView,
    over_florida: Seq<bool>,
    chord: u32,
    to_boundary: u32,
) -> Result<Option<LandfallAnalysisView>, LandfallError> {
    let first = entry_index(over_florida);
    if over_florida.len() != track.path.len() {
        Err(LandfallError::ClassificationMismatch)
    } else if first == over_florida.len() {
        Ok(None)
    } else {
        match landfall_instant(track.path, first, chord, to_boundary) {
            Err(e) => Err(e),
            Ok(landfall) => Ok(
                Some(
                    LandfallAnalysisView {
                        index: track.index,
                        name: track.name,
                        path: track.path,
                        landfall,
                        first_datetime_over_florida: track.path[first].datetime,
                        last_datetime_over_florida: track.path[last_inside_index(
                            over_florida,
                        )].datetime,
                    },
                ),
            ),
        }
    }
}

/// Estimates when a storm first was over the region.
///
/// `over_florida` says of each observation of the track, in order, whether it
/// was made inside the region.  A track that never was inside gives `None`.
/// One that starts inside made landfall at its first observation.  Otherwise
/// landfall lies between the first observation inside and the one before it,
/// as [`interpolate_landfall`] places it: `chord` is the distance between
/// those two positions, `to_boundary` the distance from the earlier one to the
/// region; neither is read in the other cases.  The analysis keeps the whole
/// path, and the instants of the first and of the last observation inside,
/// wherever the storm was in between.
pub fn estimate_landfall(
    track: HurricaneTrack,
    over_florida: &Vec<bool>,
    chord: u32,
    to_boundary: u32,
) -> (analysis: Result<Option<HurricaneLandfallAnalysis>, LandfallError>)
    ensures
        match landfall_outcome(track@, over_florida@, chord, to_boundary) {
            Ok(Some(expected)) => analysis matches Ok(Some(found)) && found@ == expected,
            Ok(None) => analysis matches Ok(None),
            Err(expected) => analysis matches Err(found) && found == expected,
        },
        over_florida@.len() == track.path@.len() && !enters(over_florida@) ==> analysis matches Ok(
            None,
        ),
        over_florida@.len() == track.path@.len() && track.path@.len() > 0 && over_florida@[0] ==> (
        analysis matches Ok(Some(found)) && found.landfall == track.path@[0].datetime),
{
    proof {
        if over_florida@.len() == track.path@.len() {
            if !enters(over_florida@) {
                lemma_entry_point_unique(over_florida@, over_florida@.len() as int);
            } else if over_florida@[0] {
                lemma_entry_point_unique(over_florida@, 0);
            }
        }
    }
    if over_florida.len() != track.path.len() {
        return Err(LandfallError::ClassificationMismatch);
    }
    let scan = scan_track(over_florida);
    match (scan.first_inside, scan.last_inside) {
        (Some(first), Some(last)) => {
            proof {
                lemma_entry_point_unique(over_florida@, first as int);
                lemma_last_inside_unique(over_florida@, last as int);
            }
            let landfall = if first == 0 {
                track.path[0].datetime
            } else {
                match interpolate_landfall(
                    track.path[first - 1].datetime,
                    track.path[first].datetime,
                    chord,
                    to_boundary,
                ) {
                    Ok(instant) => instant,
                    Err(e) => {
                        return Err(e);
                    },
                }
            };
            let first_datetime_over_florida = track.path[first].datetime;
            let last_datetime_over_florida = track.path[last].datetime;
            Ok(
                Some(
                    HurricaneLandfallAnalysis {
                        index: track.index,
                        name: track.name,
                        path: track.path,
                        landfall,
                        first_datetime_over_florida,
                        last_datetime_over_florida,
                    },
                ),
            )
        },
        _ => {
            proof {
                if scan.first_inside is Some {
                    assert(over_florida@[scan.first_inside->0 as int]);
                    assert(enters(over_florida@));
                } else {
                    lemma_entry_point_unique(over_florida@, over_florida@.len() as int);
                }
            }
            Ok(None)
        },
    }
}

/// A track that never was inside the region has no landfall.
pub proof fn lemma_outside_track_has_no_landfall(
    track: TrackView,
    over_florida: Seq<bool>,
    chord: u32,
    to_boundary: u32,
)
    requires
        over_florida.len() == track.path.len(),
        forall|i: int| 0 <= i < over_florida.len() ==> !over_florida[i],
    ensures
        landfall_outcome(track, over_florida, chord, to_boundary) == Ok::<
            Option<LandfallAnalysisView>,
            LandfallError,
        >(None),
{
    lemma_entry_point_unique(over_florida, over_florida.len() as int);
}

/// A track whose first observation was made inside the region made landfall
/// at the instant of that observation.
pub proof fn lemma_landfall_at_first_observation(
    track: TrackView,
    over_florida: Seq<bool>,
    chord: u32,
    to_boundary: u32,
)
    requires
        over_florida.len() == track.path.len(),
        over_florida.len() > 0,
        over_florida[0],
    ensures
        landfall_outcome(track, over_florida, chord, to_boundary) matches Ok(Some(analysis))
            && analysis.landfall == track.path[0].datetime && analysis.first_datetime_over_florida
            == track.path[0].datetime,
{
    lemma_entry_point_unique(over_florida, 0);
}

/// A gust is taken to be 1.55 times the sustained wind: 155 hundredths of a
/// knot for each knot.
pub const HURRICANE_GUST_FACTOR: i128 = 155;

/// The observation was made between the first and the last one inside the
/// region, both included.
pub open spec fn in_window(snapshot: HurricanePathSnapshot, first: i64, last: i64) -> bool {
    first <= snapshot.datetime <= last
}

/// The strongest sustained wind among the observations in the window, if
/// there is any.
pub open spec fn window_peak(path: Seq<HurricanePathSnapshot>, first: i64, last: i64) -> Option<
    i64,
>
    decreases path.len(),
{
    if path.len() == 0 {
        None
    } else {
        let earlier = window_peak(path.drop_last(), first, last);
        let wind = path.last().max_sustained_wind_speed;
        if !in_window(path.last(), first, last) {
            earlier
        } else if earlier matches Some(peak) && peak >= wind {
            earlier
        } else {
            Some(wind)
        }
    }
}

/// [`window_peak`] is a wind of the window that none in the window exceeds,
/// and is `None` only of an empty window.
pub proof fn lemma_window_peak_is_maximum(path: Seq<HurricanePathSnapshot>, first: i64, last: i64)
    ensures
        match window_peak(path, first, last) {
            Some(peak) => {
                &&& exists|i: int|
                    0 <= i < path.len() && in_window(path[i], first, last)
                        && path[i].max_sustained_wind_speed == peak
                &&& forall|i: int|
                    0 <= i < path.len() && in_window(path[i], first, last)
                        ==> path[i].max_sustained_wind_speed <= peak
            },
            None => forall|i: int| 0 <= i < path.len() ==> !in_window(path[i], first, last),
        },
    decreases path.len(),
{
    if path.len() > 0 {
        let front = path.drop_last();
        lemma_window_peak_is_maximum(front, first, last);
        assert(forall|i: int| 0 <= i < front.len() ==> front[i] == path[i]);
        let n = path.len() - 1;
        match window_peak(path, first, last) {
            Some(peak) => {
                if in_window(path[n], first, last) && path[n].max_sustained_wind_speed == peak {
                    assert(0 <= n < path.len() && in_window(path[n], first, last)
                        && path[n].max_sustained_wind_speed == peak);
                } else {
                    let i = choose|i: int|
                        0 <= i < front.len() && in_window(front[i], first, last)
                            && front[i].max_sustained_wind_speed == peak;
                    assert(0 <= i < path.len() && in_window(path[i], first, last)
                        && path[i].max_sustained_wind_speed == peak);
                }
            },
            None => {},
        }
    }
}

/// The first observation inside is in the window, unless the last one inside
/// is dated before it: so the window of a track whose observations are in
/// the order of time holds a wind.
pub proof fn lemma_window_holds_first_observation(
    path: Seq<HurricanePathSnapshot>,
    over_florida: Seq<bool>,
)
    requires
        over_florida.len() == path.len(),
        enters(over_florida),
        path[entry_index(over_florida)].datetime <= path[last_inside_index(over_florida)].datetime,
    ensures
        window_peak(
            path,
            path[entry_index(over_florida)].datetime,
            path[last_inside_index(over_florida)].datetime,
        ) is Some,
{
    let first = entry_index(over_florida);
    let witness = choose|i: int| 0 <= i < over_florida.len() && over_florida[i];
    lemma_entry_point_exists(over_florida, 0);
    assert(is_entry_point(over_florida, first));
    if first == over_florida.len() {
        assert(!over_florida[witness]);
    }
    let from = path[first].datetime;
    let to = path[last_inside_index(over_florida)].datetime;
    lemma_window_peak_is_maximum(path, from, to);
    assert(in_window(path[first], from, to));
}

/// The sustained wind reported for a track: its peak in the window, and 0
/// where the window holds no observation.
pub open spec fn max_sustained(path: Seq<HurricanePathSnapshot>, first: i64, last: i64) -> i64 {
    match window_peak(path, first, last) {
        Some(peak) => peak,
        None => 0,
    }
}

/// The table line of a track that made landfall.
pub open spec fn final_analysis(analysis: LandfallAnalysisView) -> FinalAnalysisView {
    let sustained = max_sustained(
        analysis.path,
        analysis.first_datetime_over_florida,
        analysis.last_datetime_over_florida,
    );
    FinalAnalysisView {
        name: analysis.name,
        landfall: analysis.landfall,
        max_sustained_wind_speed: sustained,
        max_gust_wind_speed: (sustained * HURRICANE_GUST_FACTOR) as i128,
    }
}

/// Whether an observation counts towards the winds of an analysis.
pub fn snapshot_is_over_florida(
    snapshot: &HurricanePathSnapshot,
    analysis: &HurricaneLandfallAnalysis,
) -> (counts: bool)
    ensures
        counts == in_window(
            *snapshot,
            analysis.first_datetime_over_florida,
            analysis.last_datetime_over_florida,
        ),
{
    snapshot.datetime >= analysis.first_datetime_over_florida && snapshot.datetime
        <= analysis.last_datetime_over_florida
}

/// The gust that goes with a sustained wind, in hundredths of a knot.
pub fn gust_wind_speed(sustained: i64) -> (gust: i128)
    ensures
        gust == sustained * HURRICANE_GUST_FACTOR,
{
    sustained as i128 * HURRICANE_GUST_FACTOR
}

/// Finds the strongest winds of a storm while it was over the region, and puts
/// them in a table of one line under the track's index.  No analysis gives an
/// empty table.
pub fn estimate_max_winds(landfall_analysis: Option<HurricaneLandfallAnalysis>) -> (table: BTreeMap<
    usize,
    HurricaneFinalAnalysis,
>)
    ensures
        match landfall_analysis {
            None => table@ == Map::<usize, HurricaneFinalAnalysis>::empty(),
            Some(analysis) => {
                &&& table@.dom() == set![analysis.index]
                &&& table@[analysis.index]@ == final_analysis(analysis@)
            },
        },
{
    let mut indexed_analysis: BTreeMap<usize, HurricaneFinalAnalysis> = BTreeMap::new();
    if let Some(analysis) = landfall_analysis {
        let mut peak: Option<i64> = None;
        let mut i: usize = 0;
        while i < analysis.path.len()
            invariant
                i <= analysis.path.len(),
                peak == window_peak(
                    analysis.path@.take(i as int),
                    analysis.first_datetime_over_florida,
                    analysis.last_datetime_over_florida,
                ),
            decreases analysis.path.len() - i,
        {
            proof {
                assert(analysis.path@.take(i + 1).drop_last() == analysis.path@.take(i as int));
            }
            if snapshot_is_over_florida(&analysis.path[i], &analysis) {
                let wind = analysis.path[i].max_sustained_wind_speed;
                peak = match peak {
                    Some(known) if known >= wind => Some(known),
                    _ => Some(wind),
                };
            }
            i += 1;
        }
        proof {
            assert(analysis.path@.take(i as int) == analysis.path@);
        }
        let max_sustained_wind_speed = match peak {
            Some(known) => known,
            None => 0,
        };
        let final_analysis = HurricaneFinalAnalysis {
            name: analysis.name,
            landfall: analysis.landfall,
            max_sustained_wind_speed,
            max_gust_wind_speed: gust_wind_speed(max_sustained_wind_speed),
        };
        indexed_analysis.insert(analysis.index, final_analysis);
        assert(indexed_analysis@.dom() =~= set![analysis.index]);
    }
    indexed_analysis
}

/// What [`analyze_track`] returns, on the views of its arguments: the lines
/// of the table by index.
pub open spec fn track_table(
    track: TrackView,
    over_florida: Seq<bool>,
    chord: u32,
    to_boundary: u32,
) -> Result<Map<usize, FinalAnalysisView>, LandfallError> {
    match landfall_outcome(track, over_florida, chord, to_boundary) {
        Err(e) => Err(e),
        Ok(None) => Ok(Map::empty()),
        Ok(Some(analysis)) => Ok(map![analysis.index => final_analysis(analysis)]),
    }
}

/// The table of a track that never was inside the region has no line, and
/// none for the track's index in particular.
pub proof fn lemma_outside_track_has_no_line(
    track: TrackView,
    over_florida: Seq<bool>,
    chord: u32,
    to_boundary: u32,
)
    requires
        over_florida.len() == track.path.len(),
        forall|i: int| 0 <= i < over_florida.len() ==> !over_florida[i],
    ensures
        track_table(track, over_florida, chord, to_boundary) matches Ok(table)
            && !table.contains_key(track.index) && table == Map::<
            usize,
            FinalAnalysisView,
        >::empty(),
{
    lemma_outside_track_has_no_landfall(track, over_florida, chord, to_boundary);
}

/// Everything that is done to one track: [`estimate_landfall`], then
/// [`estimate_max_winds`].  A track that never was inside the region gets an
/// empty table, one that was gets a table of one line under its own index.
pub fn analyze_track(
    track: HurricaneTrack,
    over_florida: &Vec<bool>,
    chord: u32,
    to_boundary: u32,
) -> (table: Result<BTreeMap<usize, HurricaneFinalAnalysis>, LandfallError>)
    ensures
        match track_table(track@, over_florida@, chord, to_boundary) {
            Ok(expected) => table matches Ok(found) && found@.dom() == expected.dom() && forall|
                index: usize,
            |
                expected.contains_key(index) ==> (#[trigger] found@[index])@ == expected[index],
            Err(expected) => table matches Err(found) && found == expected,
        },
        over_florida@.len() == track.path@.len() && !enters(over_florida@) ==> (table matches Ok(
            found,
        ) && !found@.contains_key(track.index)),
        table matches Ok(found) ==> forall|index: usize|
            found@.contains_key(index) ==> index == track.index,
{
    match estimate_landfall(track, over_florida, chord, to_boundary) {
        Ok(analysis) => Ok(estimate_max_winds(analysis)),
        Err(e) => Err(e),
    }
}

/// The table that comes of merging `right` into `left`: every line of either,
/// and where both have a line for one index, the line of `right`.
pub open spec fn merge(
    left: Map<usize, HurricaneFinalAnalysis>,
    right: Map<usize, HurricaneFinalAnalysis>,
) -> Map<usize, HurricaneFinalAnalysis> {
    left.union_prefer_right(right)
}

/// The indices of a table, in ascending order.
pub fn table_indices(table: &BTreeMap<usize, HurricaneFinalAnalysis>) -> (indices: Vec<usize>)
    ensures
        indices@.to_set() == table@.dom(),
        forall|i: int, j: int| 0 <= i < j < indices@.len() ==> indices@[i] < indices@[j],
{
    let mut indices: Vec<usize> = Vec::new();
    for index in it: table.keys()
        invariant
            indices@ == it.seq().take(it.index()).unref(),
            it.seq() == table.keys().remaining(),
    {
        indices.push(*index);
    }
    proof {
        let keys = table.keys().remaining();
        assert(indices@ == keys.unref());
        assert forall|i: int, j: int| 0 <= i < j < indices@.len() implies indices@[i]
            < indices@[j] by {
            assert(OrdSpec::cmp_spec(&keys[i], &keys[j]) is Less);
        }
    }
    indices
}

/// Merges two tables into one.  Tables of different tracks share no index;
/// if two ever did, the line of `analysis_2` would stand.
pub fn reduce(
    analysis_1: BTreeMap<usize, HurricaneFinalAnalysis>,
    analysis_2: BTreeMap<usize, HurricaneFinalAnalysis>,
) -> (merged: BTreeMap<usize, HurricaneFinalAnalysis>)
    ensures
        merged@ == merge(analysis_1@, analysis_2@),
{
    let ghost left = analysis_1@;
    let ghost right = analysis_2@;
    let mut merged = analysis_1;
    let mut rest = analysis_2;
    let indices = table_indices(&rest);
    let mut i: usize = 0;
    while i < indices.len()
        invariant
            i <= indices.len(),
            indices@.to_set() == right.dom(),
            forall|a: int, b: int| 0 <= a < b < indices@.len() ==> indices@[a] < indices@[b],
            forall|j: int|
                i <= j < indices@.len() ==> rest@.contains_key(#[trigger] indices@[j])
                    && rest@[indices@[j]] == right[indices@[j]],
            merged@ == left.union_prefer_right(right.restrict(indices@.take(i as int).to_set())),
        decreases indices.len() - i,
    {
        let index = indices[i];
        let ghost before = indices@.take(i as int).to_set();
        proof {
            assert(indices@.take(i + 1) == indices@.take(i as int).push(index));
            indices@.take(i as int).lemma_push_to_set_commute(index);
            assert(indices@.to_set().contains(indices@[i as int]));
        }
        match rest.remove(&index) {
            Some(line) => {
                merged.insert(index, line);
            },
            None => {},
        }
        proof {
            assert(merged@ =~= left.union_prefer_right(right.restrict(before.insert(index))));
        }
        i += 1;
    }
    proof {
        assert(indices@.take(i as int) == indices@);
        assert(right.restrict(right.dom()) =~= right);
    }
    merged
}

/// Merging is associative: how a run of merges is bracketed does not matter.
pub proof fn lemma_merge_associative(
    a: Map<usize, HurricaneFinalAnalysis>,
    b: Map<usize, HurricaneFinalAnalysis>,
    c: Map<usize, HurricaneFinalAnalysis>,
)
    ensures
        merge(merge(a, b), c) == merge(a, merge(b, c)),
{
    assert(merge(merge(a, b), c) =~= merge(a, merge(b, c)));
}

/// Merging is commutative on tables that hold the same line wherever both
/// hold one, and so on tables that share no index.
pub proof fn lemma_merge_commutative(
    a: Map<usize, HurricaneFinalAnalysis>,
    b: Map<usize, HurricaneFinalAnalysis>,
)
    requires
        a.agrees(b),
    ensures
        merge(a, b) == merge(b, a),
{
    assert(merge(a, b) =~= merge(b, a));
}

/// The empty table is neutral on either side of a merge.
pub proof fn lemma_merge_empty(a: Map<usize, HurricaneFinalAnalysis>)
    ensures
        merge(a, Map::empty()) == a,
        merge(Map::empty(), a) == a,
{
    assert(merge(a, Map::empty()) =~= a);
    assert(merge(Map::empty(), a) =~= a);
}

/// A batch of tables merged one after the other, starting from the empty
/// table.
pub open spec fn merge_all(tables: Seq<Map<usize, HurricaneFinalAnalysis>>) -> Map<
    usize,
    HurricaneFinalAnalysis,
>
    decreases tables.len(),
{
    if tables.len() == 0 {
        Map::empty()
    } else {
        merge(merge_all(tables.drop_last()), tables.last())
    }
}

/// Cutting a batch in two, merging each part and then the two results gives
/// what merging the whole batch gives.
pub proof fn lemma_merge_all_split(
    front: Seq<Map<usize, HurricaneFinalAnalysis>>,
    back: Seq<Map<usize, HurricaneFinalAnalysis>>,
)
    ensures
        merge_all(front + back) == merge(merge_all(front), merge_all(back)),
    decreases back.len(),
{
    if back.len() == 0 {
        assert(front + back == front);
        lemma_merge_empty(merge_all(front));
    } else {
        assert((front + back).drop_last() == front + back.drop_last());
        assert((front + back).last() == back.last());
        lemma_merge_all_split(front, back.drop_last());
        lemma_merge_associative(merge_all(front), merge_all(back.drop_last()), back.last());
    }
}

/// However a batch is cut into parts, merging each part and then the results,
/// in the order of the parts, gives what merging the whole batch gives.
pub proof fn lemma_merge_all_partition(parts: Seq<Seq<Map<usize, HurricaneFinalAnalysis>>>)
    ensures
        merge_all(parts.flatten()) == merge_all(
            parts.map_values(|part: Seq<Map<usize, HurricaneFinalAnalysis>>| merge_all(part)),
        ),
    decreases parts.len(),
{
    let merged = parts.map_values(|part: Seq<Map<usize, HurricaneFinalAnalysis>>| merge_all(part));
    parts.lemma_flatten_and_flatten_alt_are_equivalent();
    if parts.len() > 0 {
        let front = parts.drop_last();
        front.lemma_flatten_and_flatten_alt_are_equivalent();
        lemma_merge_all_partition(front);
        lemma_merge_all_split(front.flatten(), parts.last());
        assert(merged.drop_last() == front.map_values(
            |part: Seq<Map<usize, HurricaneFinalAnalysis>>| merge_all(part),
        ));
        assert(merged.last() == merge_all(parts.last()));
    }
}

/// Any two tables of the batch hold the same line wherever both hold one.
/// Tables of different tracks do: they share no index.
pub open spec fn pairwise_agree(tables: Seq<Map<usize, HurricaneFinalAnalysis>>) -> bool {
    forall|i: int, j: int|
        0 <= i < tables.len() && 0 <= j < tables.len() ==> (#[trigger] tables[i]).agrees(
            #[trigger] tables[j],
        )
}

/// Tables that share no index agree, as the tables of different tracks do:
/// each holds lines for the index of its own track alone.
pub proof fn lemma_separate_tables_agree(tables: Seq<Map<usize, HurricaneFinalAnalysis>>)
    requires
        forall|i: int, j: int, index: usize|
            0 <= i < j < tables.len() && #[trigger] tables[i].contains_key(index) ==> !(
            #[trigger] tables[j].contains_key(index)),
    ensures
        pairwise_agree(tables),
{
    assert forall|i: int, j: int|
        0 <= i < tables.len() && 0 <= j < tables.len() implies (#[trigger] tables[i]).agrees(
        #[trigger] tables[j],
    ) by {
        assert forall|index: usize|
            tables[i].contains_key(index) && tables[j].contains_key(index) implies tables[i][index]
            == tables[j][index] by {
            if i < j {
                assert(!tables[j].contains_key(index));
            } else if j < i {
                assert(!tables[i].contains_key(index));
            }
        }
    }
}

/// A merged batch has a line for an index exactly where some table of the
/// batch has one, and where the tables agree it is that table's line.
pub proof fn lemma_merge_all_lines(tables: Seq<Map<usize, HurricaneFinalAnalysis>>)
    ensures
        forall|index: usize|
            merge_all(tables).contains_key(index) <==> exists|i: int|
                0 <= i < tables.len() && #[trigger] tables[i].contains_key(index),
        pairwise_agree(tables) ==> forall|i: int, index: usize|
            0 <= i < tables.len() && #[trigger] tables[i].contains_key(index) ==> merge_all(
                tables,
            )[index] == tables[i][index],
    decreases tables.len(),
{
    if tables.len() > 0 {
        let front = tables.drop_last();
        let n = tables.len() - 1;
        lemma_merge_all_lines(front);
        assert(forall|i: int| 0 <= i < front.len() ==> front[i] == tables[i]);
        assert forall|index: usize|
            merge_all(tables).contains_key(index) <==> exists|i: int|
                0 <= i < tables.len() && #[trigger] tables[i].contains_key(index) by {
            if merge_all(tables).contains_key(index) {
                if tables[n].contains_key(index) {
                } else {
                    assert(merge_all(front).contains_key(index));
                    let i = choose|i: int|
                        0 <= i < front.len() && #[trigger] front[i].contains_key(index);
                    assert(tables[i].contains_key(index));
                }
            }
            if exists|i: int| 0 <= i < tables.len() && #[trigger] tables[i].contains_key(index) {
                let i = choose|i: int|
                    0 <= i < tables.len() && #[trigger] tables[i].contains_key(index);
                if i < n {
                    assert(front[i].contains_key(index));
                    assert(merge_all(front).contains_key(index));
                }
            }
        }
        if pairwise_agree(tables) {
            assert(pairwise_agree(front)) by {
                assert forall|i: int, j: int|
                    0 <= i < front.len() && 0 <= j < front.len() implies
                    (#[trigger] front[i]).agrees(#[trigger] front[j]) by {
                    assert(tables[i].agrees(tables[j]));
                }
            }
            assert forall|i: int, index: usize|
                0 <= i < tables.len() && #[trigger] tables[i].contains_key(
                    index,
                ) implies merge_all(tables)[index] == tables[i][index] by {
                if tables[n].contains_key(index) {
                    assert(tables[i].agrees(tables[n]));
                } else {
                    assert(front[i].contains_key(index));
                    assert(merge_all(front)[index] == front[i][index]);
                }
            }
        }
    }
}

/// The order in which the tables of a batch are merged does not matter, as
/// long as no two of them hold different lines for one index.
pub proof fn lemma_merge_all_any_order(
    tables: Seq<Map<usize, HurricaneFinalAnalysis>>,
    shuffled: Seq<Map<usize, HurricaneFinalAnalysis>>,
)
    requires
        pairwise_agree(tables),
        tables.to_multiset() == shuffled.to_multiset(),
    ensures
        merge_all(tables) == merge_all(shuffled),
{
    tables.to_multiset_ensures();
    shuffled.to_multiset_ensures();
    assert forall|j: int| 0 <= j < shuffled.len() implies tables.contains(
        #[trigger] shuffled[j],
    ) by {
        assert(shuffled.contains(shuffled[j]));
        assert(shuffled.to_multiset().count(shuffled[j]) > 0);
    }
    assert forall|i: int| 0 <= i < tables.len() implies shuffled.contains(#[trigger] tables[i]) by {
        assert(tables.contains(tables[i]));
        assert(tables.to_multiset().count(tables[i]) > 0);
    }
    assert(pairwise_agree(shuffled)) by {
        assert forall|i: int, j: int|
            0 <= i < shuffled.len() && 0 <= j < shuffled.len() implies
            (#[trigger] shuffled[i]).agrees(#[trigger] shuffled[j]) by {
            let a = choose|a: int| 0 <= a < tables.len() && tables[a] == shuffled[i];
            let b = choose|b: int| 0 <= b < tables.len() && tables[b] == shuffled[j];
            assert(tables[a].agrees(tables[b]));
        }
    }
    lemma_merge_all_lines(tables);
    lemma_merge_all_lines(shuffled);
    let left = merge_all(tables);
    let right = merge_all(shuffled);
    assert forall|index: usize| left.contains_key(index) implies right.contains_key(index)
        && right[index] == left[index] by {
        let i = choose|i: int| 0 <= i < tables.len() && #[trigger] tables[i].contains_key(index);
        let j = choose|j: int| 0 <= j < shuffled.len() && shuffled[j] == tables[i];
        assert(shuffled[j].contains_key(index));
    }
    assert forall|index: usize| right.contains_key(index) implies left.contains_key(index) by {
        let j = choose|j: int|
            0 <= j < shuffled.len() && #[trigger] shuffled[j].contains_key(index);
        let i = choose|i: int| 0 <= i < tables.len() && tables[i] == shuffled[j];
        assert(tables[i].contains_key(index));
    }
    assert(left =~= right);
}

} // verus!
