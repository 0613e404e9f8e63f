//! From the lines of a file to the tracks they record.
//!
//! A file is a run of groups.  Each group is a header line, which names a
//! storm and says how many lines of data follow, and then those lines, one
//! observation each.

use vstd::prelude::*;
use vstd::string::StrSliceExecFns;
use crate::pipeline::data::{
    characters, number_at, snapshot_of, HurricanePathSnapshot, HurricaneTrack, ParseError,
    TrackView,
};
use crate::pipeline::text::{
    all_digits, integer_in_range, read_integer, read_short_number, split_line, trimmed_fields,
};

verus! {

/// What a header line says.
pub struct Header {
    /// The year of the storm.
    pub year: int,
    /// The name of the storm.
    pub name: Seq<char>,
    /// The number of lines of data that follow.
    pub rows: i64,
}

/// What a header line says, if it is one.  Its fields stand between commas,
/// with white space around them that does not count: an identifier whose
/// fifth to eighth characters are the digits of the year, the name, and the
/// number of lines that follow, which is not negative; what follows is not
/// read.
pub open spec fn header_of(line: Seq<char>) -> Result<Header, ParseError> {
    let field = trimmed_fields(line);
    if field.len() < 3 {
        Err(ParseError::MissingField)
    } else {
        match integer_in_range(field[2]) {
            Some(rows) if rows >= 0 => {
                if field[0].len() >= 8 && all_digits(field[0].subrange(4, 8)) {
                    Ok(Header { year: number_at(field[0], 4, 4) as int, name: field[1], rows })
                } else {
                    Err(ParseError::InvalidNumber)
                }
            },
            _ => Err(ParseError::InvalidNumber),
        }
    }
}

/// The track that a header opens: none where the year is out of the range
/// asked for.
pub open spec fn opened_track(
    header: Header,
    index: usize,
    start_year: i64,
    end_year: i64,
) -> Option<TrackView> {
    if start_year <= header.year <= end_year {
        Some(TrackView { index, name: header.name, path: Seq::empty() })
    } else {
        None
    }
}

/// A header line, read.
pub struct ParsedLine {
    /// The number of lines of data that follow; never negative.
    pub rows_to_follow: i64,
    /// The track that the header opens, if its year is asked for.
    pub track: Option<HurricaneTrack>,
}

/// The view of a track that may not be there.
pub open spec fn track_view(track: Option<HurricaneTrack>) -> Option<TrackView> {
    match track {
        Some(track) => Some(track@),
        None => None,
    }
}

impl ParsedLine {
    /// Reads a header line.  The track it opens gets the index `index`; a
    /// storm of a year before `start_year` or after `end_year` opens none.
    pub fn new(line: String, index: usize, start_year: i64, end_year: i64) -> (parsed: Result<
        ParsedLine,
        ParseError,
    >)
        ensures
            match header_of(line@) {
                Ok(header) => parsed matches Ok(found) && found.rows_to_follow == header.rows
                    && track_view(found.track) == opened_track(
                    header,
                    index,
                    start_year,
                    end_year,
                ),
                Err(e) => parsed matches Err(found) && found == e,
            },
    {
        ParsedLine::read(line.as_str(), index, start_year, end_year)
    }

    /// Reads a header line, as [`ParsedLine::new`] does.
    pub fn read(line: &str, index: usize, start_year: i64, end_year: i64) -> (parsed: Result<
        ParsedLine,
        ParseError,
    >)
        ensures
            match header_of(line@) {
                Ok(header) => parsed matches Ok(found) && found.rows_to_follow == header.rows
                    && track_view(found.track) == opened_track(
                    header,
                    index,
                    start_year,
                    end_year,
                ),
                Err(e) => parsed matches Err(found) && found == e,
            },
    {
        let text = characters(line);
        let field = split_line(&text);
        if field.len() < 3 {
            return Err(ParseError::MissingField);
        }
        let (id_from, id_to) = field[0];
        let (name_from, name_to) = field[1];
        let (rows_from, rows_to) = field[2];
        let rows_to_follow = match read_integer(&text, rows_from, rows_to) {
            Some(rows) if rows >= 0 => rows,
            _ => {
                return Err(ParseError::InvalidNumber);
            },
        };
        if id_to - id_from < 8 {
            return Err(ParseError::InvalidNumber);
        }
        proof {
            assert(text@.subrange(id_from as int, id_to as int).subrange(4, 8) == text@.subrange(
                id_from + 4,
                id_from + 8,
            ));
        }
        let hurricane_year = match read_short_number(&text, id_from + 4, 4) {
            Some(year) => year as i64,
            None => {
                return Err(ParseError::InvalidNumber);
            },
        };
        if hurricane_year < start_year || hurricane_year > end_year {
            return Ok(ParsedLine { rows_to_follow, track: None });
        }
        let hurricane_name = line.substring_char(name_from, name_to).to_owned();
        Ok(ParsedLine { rows_to_follow, track: Some(HurricaneTrack::new(index, hurricane_name)) })
    }
}

/// Where the reading of a file stands between two lines.
pub struct AssemblerView {
    /// Storms of earlier years are passed over.
    pub start_year: i64,
    /// Storms of later years are passed over.
    pub end_year: i64,
    /// The number of tracks handed out so far.
    pub emitted: usize,
    /// The track that is being read, unless the storm is passed over.
    pub current: Option<TrackView>,
    /// The number of lines of data still to come in the group.
    pub rows_to_follow: u64,
}

/// Where the reading stands before the first line.
pub open spec fn initial(start_year: i64, end_year: i64) -> AssemblerView {
    AssemblerView { start_year, end_year, emitted: 0, current: None, rows_to_follow: 0 }
}

/// What one more line does: where the reading stands after it, and the track
/// that it completes, if any.
///
/// Where no more data is due the line is a header.  It completes the track
/// read so far and opens the next, which gets the number of tracks completed
/// before it as its index.  Any other line is one of data: an observation of
/// the track that is being read, or a line to skip.
pub open spec fn feed(state: AssemblerView, line: Seq<char>) -> Result<
    (AssemblerView, Option<TrackView>),
    ParseError,
> {
    if state.rows_to_follow == 0 {
        let emitted = if state.current is Some {
            (state.emitted + 1) as usize
        } else {
            state.emitted
        };
        match header_of(line) {
            Err(e) => Err(e),
            Ok(header) => Ok(
                (
                    AssemblerView {
                        emitted,
                        current: opened_track(header, emitted, state.start_year, state.end_year),
                        rows_to_follow: header.rows as u64,
                        ..state
                    },
                    state.current,
                ),
            ),
        }
    } else {
        let rows_to_follow = (state.rows_to_follow - 1) as u64;
        match state.current {
            None => Ok((AssemblerView { rows_to_follow, ..state }, None)),
            Some(track) => match snapshot_of(line) {
                Err(e) => Err(e),
                Ok(snapshot) => Ok(
                    (
                        AssemblerView {
                            current: Some(TrackView { path: track.path.push(snapshot), ..track }),
                            rows_to_follow,
                            ..state
                        },
                        None,
                    ),
                ),
            },
        }
    }
}

/// Groups the lines of a file into tracks, line by line.
pub struct TrackAssembler {
    start_year: i64,
    end_year: i64,
    hurricane_index: usize,
    hurricane_track: Option<HurricaneTrack>,
    rows_to_follow: u64,
}

impl View for TrackAssembler {
    type V = AssemblerView;

    closed spec fn view(&self) -> AssemblerView {
        AssemblerView {
            start_year: self.start_year,
            end_year: self.end_year,
            emitted: self.hurricane_index,
            current: track_view(self.hurricane_track),
            rows_to_follow: self.rows_to_follow,
        }
    }
}

impl TrackAssembler {
    /// An assembler that has read nothing yet and keeps the storms of the
    /// years from `start_year` to `end_year`, both included.
    pub fn new(start_year: i64, end_year: i64) -> (assembler: TrackAssembler)
        ensures
            assembler@ == initial(start_year, end_year),
    {
        TrackAssembler {
            start_year,
            end_year,
            hurricane_index: 0,
            hurricane_track: None,
            rows_to_follow: 0,
        }
    }

    /// The number of tracks handed out so far.
    pub fn emitted(&self) -> (count: usize)
        ensures
            count == self@.emitted,
    {
        self.hurricane_index
    }

    /// Takes the next line of the file, and hands out the track that it
    /// completes, if it completes one.  A line that is refused leaves the
    /// assembler as it was.
    pub fn push_line(&mut self, line: &str) -> (completed: Result<
        Option<HurricaneTrack>,
        ParseError,
    >)
        requires
            old(self)@.emitted < usize::MAX,
        ensures
            match feed(old(self)@, line@) {
                Ok((state, track)) => {
                    &&& final(self)@ == state
                    &&& completed matches Ok(found) && track_view(found) == track
                },
                Err(e) => {
                    &&& final(self)@ == old(self)@
                    &&& completed matches Err(found) && found == e
                },
            },
    {
        if self.rows_to_follow == 0 {
            let index = if self.hurricane_track.is_some() {
                self.hurricane_index + 1
            } else {
                self.hurricane_index
            };
            match ParsedLine::read(line, index, self.start_year, self.end_year) {
                Err(e) => Err(e),
                Ok(parsed) => {
                    let mut completed = parsed.track;
                    std::mem::swap(&mut self.hurricane_track, &mut completed);
                    self.hurricane_index = index;
                    self.rows_to_follow = parsed.rows_to_follow as u64;
                    Ok(completed)
                },
            }
        } else {
            let mut reading: Option<HurricaneTrack> = None;
            std::mem::swap(&mut self.hurricane_track, &mut reading);
            match reading {
                None => {
                    self.rows_to_follow = self.rows_to_follow - 1;
                    Ok(None)
                },
                Some(mut track) => match HurricanePathSnapshot::read(line) {
                    Err(e) => {
                        self.hurricane_track = Some(track);
                        Err(e)
                    },
                    Ok(snapshot) => {
                        track.path.push(snapshot);
                        self.hurricane_track = Some(track);
                        self.rows_to_follow = self.rows_to_follow - 1;
                        Ok(None)
                    },
                },
            }
        }
    }

    /// Ends the reading: hands out the track that was being read, if any.
    pub fn finish(self) -> (last: Option<HurricaneTrack>)
        ensures
            track_view(last) == self@.current,
    {
        self.hurricane_track
    }
}

/// What a run of lines does, from a given state on: where the reading stands
/// after them and the tracks that they complete, in order; or why the first
/// line that is refused is.
pub open spec fn feed_all(state: AssemblerView, lines: Seq<Seq<char>>) -> Result<
    (AssemblerView, Seq<TrackView>),
    ParseError,
>
    decreases lines.len(),
{
    if lines.len() == 0 {
        Ok((state, Seq::empty()))
    } else {
        match feed_all(state, lines.drop_last()) {
            Err(e) => Err(e),
            Ok((reached, tracks)) => match feed(reached, lines.last()) {
                Err(e) => Err(e),
                Ok((next, None)) => Ok((next, tracks)),
                Ok((next, Some(track))) => Ok((next, tracks.push(track))),
            },
        }
    }
}

/// The tracks that the lines of a file record, for the years asked for: those
/// that the lines complete, and then the one that the end of the file does.
pub open spec fn assembled(lines: Seq<Seq<char>>, start_year: i64, end_year: i64) -> Result<
    Seq<TrackView>,
    ParseError,
> {
    match feed_all(initial(start_year, end_year), lines) {
        Err(e) => Err(e),
        Ok((reached, tracks)) => match reached.current {
            Some(track) => Ok(tracks.push(track)),
            None => Ok(tracks),
        },
    }
}

/// Once a line has been refused, no line after it is read.
pub proof fn lemma_feed_all_stops(state: AssemblerView, lines: Seq<Seq<char>>, n: int)
    requires
        0 <= n <= lines.len(),
        feed_all(state, lines.take(n)) is Err,
    ensures
        feed_all(state, lines) == feed_all(state, lines.take(n)),
    decreases lines.len() - n,
{
    if n < lines.len() {
        assert(lines.take(n + 1).drop_last() == lines.take(n));
        lemma_feed_all_stops(state, lines, n + 1);
    } else {
        assert(lines.take(n) == lines);
    }
}

/// Tracks are numbered as they are completed: the tracks handed out are as
/// many as the count says, each has its place in the sequence as its index,
/// and the track being read will have the next.
pub proof fn lemma_feed_all_counts(lines: Seq<Seq<char>>, start_year: i64, end_year: i64)
    requires
        lines.len() <= usize::MAX,
    ensures
        feed_all(initial(start_year, end_year), lines) matches Ok((reached, tracks)) ==> {
            &&& tracks.len() == reached.emitted
            &&& reached.emitted + (if reached.current is Some {
                1int
            } else {
                0int
            }) <= lines.len()
            &&& forall|k: int| 0 <= k < tracks.len() ==> (#[trigger] tracks[k]).index == k
            &&& reached.current matches Some(track) ==> track.index == reached.emitted
            &&& reached.start_year == start_year
            &&& reached.end_year == end_year
        },
    decreases lines.len(),
{
    if lines.len() > 0 {
        lemma_feed_all_counts(lines.drop_last(), start_year, end_year);
    }
}

/// The tracks of a file are numbered from 0 on, in the order in which the
/// file holds them.
pub proof fn lemma_indices_count_up(lines: Seq<Seq<char>>, start_year: i64, end_year: i64)
    requires
        lines.len() <= usize::MAX,
    ensures
        assembled(lines, start_year, end_year) matches Ok(tracks) ==> forall|k: int|
            0 <= k < tracks.len() ==> (#[trigger] tracks[k]).index == k,
{
    lemma_feed_all_counts(lines, start_year, end_year);
}

/// The texts of a run of lines.
pub open spec fn texts(lines: Seq<String>) -> Seq<Seq<char>> {
    lines.map_values(|line: String| line@)
}

/// The views of a run of tracks.
pub open spec fn track_views(tracks: Seq<HurricaneTrack>) -> Seq<TrackView> {
    tracks.map_values(|track: HurricaneTrack| track@)
}

/// Reads all the lines of a file and gives the tracks of the storms from
/// `start_year` to `end_year`, in the order of the file.  One line that is
/// refused and there are no tracks at all.
pub fn stream_file(lines: &Vec<String>, start_year: i64, end_year: i64) -> (tracks: Result<
    Vec<HurricaneTrack>,
    ParseError,
>)
    ensures
        match assembled(texts(lines@), start_year, end_year) {
            Ok(expected) => tracks matches Ok(found) && track_views(found@) == expected,
            Err(e) => tracks matches Err(found) && found == e,
        },
{
    let ghost all = texts(lines@);
    let mut assembler = TrackAssembler::new(start_year, end_year);
    let mut tracks: Vec<HurricaneTrack> = Vec::new();
    let mut i: usize = 0;
    proof {
        assert(all.take(0) == Seq::<Seq<char>>::empty());
        assert(track_views(tracks@) == Seq::<TrackView>::empty());
    }
    while i < lines.len()
        invariant
            i <= lines.len(),
            all == texts(lines@),
            feed_all(initial(start_year, end_year), all.take(i as int)) == Ok::<
                (AssemblerView, Seq<TrackView>),
                ParseError,
            >((assembler@, track_views(tracks@))),
        decreases lines.len() - i,
    {
        proof {
            lemma_feed_all_counts(all.take(i as int), start_year, end_year);
            assert(all.take(i + 1).drop_last() == all.take(i as int));
            assert(all.take(i + 1).last() == lines@[i as int]@);
        }
        let ghost before = track_views(tracks@);
        match assembler.push_line(lines[i].as_str()) {
            Err(e) => {
                proof {
                    lemma_feed_all_stops(initial(start_year, end_year), all, i + 1);
                }
                return Err(e);
            },
            Ok(None) => {},
            Ok(Some(track)) => {
                tracks.push(track);
                proof {
                    assert(track_views(tracks@) == before.push(track@));
                }
            },
        }
        i += 1;
    }
    proof {
        assert(all.take(i as int) == all);
    }
    let ghost before = track_views(tracks@);
    match assembler.finish() {
        Some(track) => {
            tracks.push(track);
            proof {
                assert(track_views(tracks@) == before.push(track@));
            }
        },
        None => {},
    }
    Ok(tracks)
}

} // verus!
