//! Small numeric helpers of the vertical scan-line segmentation.
use vstd::prelude::*;

verus! {

/// Number of entries of `s` that are strictly below `v`.
pub open spec fn count_below(s: Seq<u8>, v: u8) -> nat
    decreases s.len(),
{
    if s.len() == 0 {
        0
    } else {
        count_below(s.drop_last(), v) + if s.last() < v { 1nat } else { 0nat }
    }
}

/// Number of entries of `s` that are at most `v`.
pub open spec fn count_at_most(s: Seq<u8>, v: u8) -> nat
    decreases s.len(),
{
    if s.len() == 0 {
        0
    } else {
        count_at_most(s.drop_last(), v) + if s.last() <= v { 1nat } else { 0nat }
    }
}

/// `m` is a median of `s`: an element of `s` with at most half of the
/// entries strictly below it and at most half strictly above it.
pub open spec fn is_median(s: Seq<u8>, m: u8) -> bool {
    &&& s.contains(m)
    &&& 2 * count_below(s, m) <= s.len()
    &&& 2 * (s.len() - count_at_most(s, m)) <= s.len()
}

/// The middle value of three.
pub fn median_of_three(values: [u8; 3]) -> (r: u8)
    ensures
        is_median(values@, r),
{
    let first = values[0];
    let second = values[1];
    let third = values[2];
    let r = if first <= second {
        if second <= third {
            second
        } else if first <= third {
            third
        } else {
            first
        }
    } else if first <= third {
        first
    } else if second <= third {
        third
    } else {
        second
    };
    proof {
        reveal_with_fuel(count_below, 4);
        reveal_with_fuel(count_at_most, 4);
        assert(values@.drop_last().drop_last().drop_last() =~= Seq::<u8>::empty());
        assert(values@[0] == first && values@[1] == second && values@[2] == third);
    }
    r
}


/// Counts the entries of `values` below `v` and at most `v`.
fn counts_around(values: &[u8; 5], v: u8) -> (r: (usize, usize))
    ensures
        r.0 == count_below(values@, v),
        r.1 == count_at_most(values@, v),
        r.0 <= r.1 <= 5,
{
    let mut below: usize = 0;
    let mut at_most: usize = 0;
    let mut i: usize = 0;
    while i < 5
        invariant
            i <= 5,
            below == count_below(values@.take(i as int), v),
            at_most == count_at_most(values@.take(i as int), v),
            below <= i,
            at_most <= i,
        decreases 5 - i,
    {
        assert(values@.take(i + 1).drop_last() =~= values@.take(i as int));
        if values[i] < v {
            below = below + 1;
        }
        if values[i] <= v {
            at_most = at_most + 1;
        }
        i = i + 1;
    }
    assert(values@.take(5) =~= values@);
    proof {
        lemma_count_at_most_bounded(values@, v);
    }
    (below, at_most)
}

proof fn lemma_five_values_have_median(s: Seq<u8>)
    requires
        s.len() == 5,
    ensures
        exists|j: int| 0 <= j < 5 && #[trigger] is_median(s, s[j]),
{
    reveal_with_fuel(count_below, 6);
    reveal_with_fuel(count_at_most, 6);
    assert(s.drop_last().drop_last().drop_last().drop_last().drop_last() =~= Seq::<u8>::empty());
    assert(s.contains(s[0]) && s.contains(s[1]) && s.contains(s[2]) && s.contains(s[3])
        && s.contains(s[4]));
    let m0 = is_median(s, s[0]);
    let m1 = is_median(s, s[1]);
    let m2 = is_median(s, s[2]);
    let m3 = is_median(s, s[3]);
    let m4 = is_median(s, s[4]);
    assert(m0 || m1 || m2 || m3 || m4);
}

/// The middle value of five.
pub fn median_of_five(values: [u8; 5]) -> (r: u8)
    ensures
        is_median(values@, r),
{
    let mut i: usize = 0;
    while i < 5
        invariant
            i <= 5,
            forall|j: int| 0 <= j < i ==> !#[trigger] is_median(values@, values@[j]),
        decreases 5 - i,
    {
        let (below, at_most) = counts_around(&values, values[i]);
        if 2 * below <= 5 && 2 * (5 - at_most) <= 5 {
            proof {
                assert(values@.contains(values@[i as int]));
            }
            return values[i];
        }
        i = i + 1;
    }
    proof {
        lemma_five_values_have_median(values@);
    }
    values[2]
}

proof fn lemma_count_at_most_bounded(s: Seq<u8>, v: u8)
    ensures
        count_at_most(s, v) <= s.len(),
        count_below(s, v) <= count_at_most(s, v),
    decreases s.len(),
{
    if s.len() > 0 {
        lemma_count_at_most_bounded(s.drop_last(), v);
    }
}


/// How a segment of a scan line begins or ends.
#[derive(Clone, Copy, Debug, PartialEq, Eq, Structural)]
pub enum EdgeType {
    Rising,
    Falling,
    ImageBorder,
    LimbBorder,
}

/// Whether a color is close to the field color.
#[derive(Clone, Copy, Debug, PartialEq, Eq, Structural)]
pub enum Intensity {
    Low,
    High,
}

/// A pixel color in luminance and two chrominance channels.
#[derive(Clone, Copy, Debug, PartialEq, Eq, Structural)]
pub struct YCbCr444 {
    pub y: u8,
    pub cb: u8,
    pub cr: u8,
}

/// A run of pixels along a scan line between two edges.
#[derive(Clone, Copy, Debug, PartialEq, Eq, Structural)]
pub struct Segment {
    pub start: u16,
    pub end: u16,
    pub start_edge_type: EdgeType,
    pub end_edge_type: EdgeType,
    pub color: YCbCr444,
    pub field_color: Intensity,
}

impl Segment {
    /// The number of pixels the segment covers.
    pub fn length(&self) -> (r: u16)
        requires
            self.start <= self.end,
        ensures
            r == self.end - self.start,
    {
        self.end - self.start
    }
}

/// How many neighbouring pixels of a row are combined before edges are
/// detected.
#[derive(Clone, Copy, Debug, PartialEq, Eq, Structural)]
pub enum MedianModeParameters {
    Disabled,
    ThreePixels,
    FivePixels,
}

/// The value used for edge detection at column `x`, given the values of
/// the pixels of its row: the pixel's own value, or the median of it and
/// its nearest neighbours in the row.
pub fn edge_detection_value_at(values: &Vec<u8>, x: usize, median_mode: MedianModeParameters) -> (r:
    i16)
    requires
        x < values@.len(),
        median_mode == MedianModeParameters::ThreePixels ==> 1 <= x && x + 1 < values@.len(),
        median_mode == MedianModeParameters::FivePixels ==> 2 <= x && x + 2 < values@.len(),
    ensures
        0 <= r <= 255,
        median_mode == MedianModeParameters::Disabled ==> r == values@[x as int],
        median_mode == MedianModeParameters::ThreePixels ==> is_median(
            values@.subrange(x - 1, x + 2),
            r as u8,
        ),
        median_mode == MedianModeParameters::FivePixels ==> is_median(
            values@.subrange(x - 2, x + 3),
            r as u8,
        ),
{
    let count = values.len();
    assert(x < count);
    match median_mode {
        MedianModeParameters::Disabled => values[x] as i16,
        MedianModeParameters::ThreePixels => {
            let pixels = [values[x - 1], values[x], values[x + 1]];
            assert(pixels@ =~= values@.subrange(x - 1, x + 2));
            median_of_three(pixels) as i16
        },
        MedianModeParameters::FivePixels => {
            let pixels = [values[x - 2], values[x - 1], values[x], values[x + 1], values[x + 2]];
            assert(pixels@ =~= values@.subrange(x - 2, x + 3));
            median_of_five(pixels) as i16
        },
    }
}

/// The color a segment gets from the pixels of its column: per channel the
/// median of three pixels at a quarter, half and three quarters of a
/// segment of at least four pixels, else the pixel in its middle.
pub open spec fn has_segment_color(segment: Segment, column: Seq<YCbCr444>, color: YCbCr444) -> bool {
    let length = segment.end - segment.start;
    if length >= 4 {
        let spacing = length / 4;
        let first = column[segment.start + spacing];
        let second = column[segment.start + 2 * spacing];
        let third = column[segment.start + 3 * spacing];
        &&& is_median(seq![first.y, second.y, third.y], color.y)
        &&& is_median(seq![first.cb, second.cb, third.cb], color.cb)
        &&& is_median(seq![first.cr, second.cr, third.cr], color.cr)
    } else {
        color == column[segment.start + length / 2]
    }
}

/// Gives `segment` the color of the pixels of its column (the pixels at
/// the segment's positions along the scan line).
pub fn set_color_in_vertical_segment(segment: Segment, column: &Vec<YCbCr444>) -> (r: Segment)
    requires
        segment.start <= segment.end,
        (segment.end as int) <= column@.len(),
        (segment.start as int) < column@.len(),
    ensures
        r == (Segment { color: r.color, ..segment }),
        has_segment_color(segment, column@, r.color),
{
    let length = segment.length();
    let color = if length >= 4 {
        let spacing = length / 4;
        let first_pixel = column[(segment.start + spacing) as usize];
        let second_pixel = column[(segment.start + 2 * spacing) as usize];
        let third_pixel = column[(segment.start + 3 * spacing) as usize];
        let y = median_of_three([first_pixel.y, second_pixel.y, third_pixel.y]);
        let cb = median_of_three([first_pixel.cb, second_pixel.cb, third_pixel.cb]);
        let cr = median_of_three([first_pixel.cr, second_pixel.cr, third_pixel.cr]);
        proof {
            assert([first_pixel.y, second_pixel.y, third_pixel.y]@ =~= seq![first_pixel.y, second_pixel.y, third_pixel.y]);
            assert([first_pixel.cb, second_pixel.cb, third_pixel.cb]@ =~= seq![first_pixel.cb, second_pixel.cb, third_pixel.cb]);
            assert([first_pixel.cr, second_pixel.cr, third_pixel.cr]@ =~= seq![first_pixel.cr, second_pixel.cr, third_pixel.cr]);
        }
        YCbCr444 { y, cb, cr }
    } else {
        column[(segment.start + length / 2) as usize]
    };
    Segment { color, ..segment }
}

/// The state of edge detection along one scan line.
#[derive(Clone, Copy, Debug, PartialEq, Eq, Structural)]
pub struct ScanLineState {
    pub previous_value: i16,
    pub previous_difference: i16,
    pub maximum_difference: i16,
    pub maximum_difference_position: u16,
    pub start_position: u16,
    pub start_edge_type: EdgeType,
}

impl ScanLineState {
    /// The state at the start of a scan line: no difference seen yet.
    pub fn new(previous_value: i16, start_position: u16, start_edge_type: EdgeType) -> (r: Self)
        ensures
            r == (ScanLineState {
                previous_value,
                previous_difference: 0,
                maximum_difference: 0,
                maximum_difference_position: 0,
                start_position,
                start_edge_type,
            }),
    {
        ScanLineState {
            previous_value,
            previous_difference: 0,
            maximum_difference: 0,
            maximum_difference_position: 0,
            start_position,
            start_edge_type,
        }
    }
}

/// The difference to the previous value becomes the new extreme difference
/// of the current segment: it reaches the threshold and is at least as far
/// from zero, on the same side, as the extreme so far.
pub open spec fn takes_maximum(maximum: int, difference: int, threshold: int) -> bool {
    &&& (if difference < 0 { -difference } else { difference }) >= threshold
    &&& {
        ||| (maximum == 0 && difference == 0)
        ||| (maximum >= 0 && difference >= maximum)
        ||| (maximum <= 0 && difference <= maximum)
    }
}

/// The previous difference was a rising edge that the current one ends.
pub open spec fn ends_rising_edge(previous: int, difference: int, threshold: int) -> bool {
    previous >= threshold && difference < threshold
}

/// The previous difference was a falling edge that the current one ends.
pub open spec fn ends_falling_edge(previous: int, difference: int, threshold: int) -> bool {
    previous <= -threshold && difference > -threshold
}

/// Feeds the value at `position` into the edge detection of a scan line.
/// When this value ends an edge, the segment from the last edge to the
/// position of the strongest difference is returned, and the next segment
/// starts there.
pub fn detect_edge(state: &mut ScanLineState, position: u16, value: i16, edge_threshold: i16) -> (r:
    Option<Segment>)
    requires
        i16::MIN < value - old(state).previous_value <= i16::MAX,
        edge_threshold > i16::MIN,
    ensures
        ({
            let s = *old(state);
            let difference = value - s.previous_value;
            let takes = takes_maximum(s.maximum_difference as int, difference, edge_threshold as int);
            let maximum_position = if takes {
                position
            } else {
                s.maximum_difference_position
            };
            let rising = ends_rising_edge(s.previous_difference as int, difference, edge_threshold as int);
            let falling = ends_falling_edge(s.previous_difference as int, difference, edge_threshold as int);
            let edge = rising || falling;
            &&& r is Some <==> edge
            &&& r matches Some(segment) ==> segment == (Segment {
                start: s.start_position,
                end: maximum_position,
                start_edge_type: s.start_edge_type,
                end_edge_type: if rising {
                    EdgeType::Rising
                } else {
                    EdgeType::Falling
                },
                color: YCbCr444 { y: 0, cb: 0, cr: 0 },
                field_color: Intensity::Low,
            })
            &&& final(state).previous_value == value
            &&& final(state).previous_difference == difference
            &&& final(state).maximum_difference_position == maximum_position
            &&& final(state).maximum_difference == if edge {
                0
            } else if takes {
                difference
            } else {
                s.maximum_difference as int
            }
            &&& final(state).start_position == if edge {
                maximum_position
            } else {
                s.start_position
            }
            &&& final(state).start_edge_type == if edge {
                if rising {
                    EdgeType::Rising
                } else {
                    EdgeType::Falling
                }
            } else {
                s.start_edge_type
            }
        }),
{
    let value_difference = value - state.previous_value;
    let magnitude = if value_difference < 0 {
        -value_difference
    } else {
        value_difference
    };
    let differences_have_initial_values = state.maximum_difference == 0 && value_difference == 0;
    let new_difference_is_more_positive = state.maximum_difference >= 0 && value_difference
        >= state.maximum_difference;
    let new_difference_is_more_negative = state.maximum_difference <= 0 && value_difference
        <= state.maximum_difference;
    if magnitude >= edge_threshold && (differences_have_initial_values
        || new_difference_is_more_positive || new_difference_is_more_negative) {
        state.maximum_difference = value_difference;
        state.maximum_difference_position = position;
    }
    let found_rising_edge = state.previous_difference >= edge_threshold && value_difference
        < edge_threshold;
    let found_falling_edge = state.previous_difference <= -edge_threshold && value_difference
        > -edge_threshold;
    let segment = if found_rising_edge || found_falling_edge {
        let end_edge_type = if found_rising_edge {
            EdgeType::Rising
        } else {
            EdgeType::Falling
        };
        let segment = Segment {
            start: state.start_position,
            end: state.maximum_difference_position,
            start_edge_type: state.start_edge_type,
            end_edge_type,
            color: YCbCr444 { y: 0, cb: 0, cr: 0 },
            field_color: Intensity::Low,
        };
        state.maximum_difference = 0;
        state.start_position = state.maximum_difference_position;
        state.start_edge_type = end_edge_type;
        Some(segment)
    } else {
        None
    };
    state.previous_value = value;
    state.previous_difference = value_difference;
    segment
}

/// Marks the last segment, if any, as ending at a limb.
pub fn fix_previous_edge_type(segments: &mut Vec<Segment>)
    ensures
        old(segments)@.len() == 0 ==> final(segments)@ == old(segments)@,
        old(segments)@.len() > 0 ==> final(segments)@ == old(segments)@.update(
            old(segments)@.len() - 1,
            Segment { end_edge_type: EdgeType::LimbBorder, ..old(segments)@.last() },
        ),
{
    let length = segments.len();
    if length > 0 {
        let mut previous_segment = segments[length - 1];
        previous_segment.end_edge_type = EdgeType::LimbBorder;
        segments.set(length - 1, previous_segment);
    }
}

} // verus!
