//! How the screen is divided.
use ratatui::layout::{Constraint, Direction, Layout, Rect};
use vstd::prelude::*;

verus! {

/// A rectangle of the screen.
#[derive(Debug, Clone, Copy, PartialEq, Eq, Structural)]
pub struct Area {
    pub x: u16,
    pub y: u16,
    pub width: u16,
    pub height: u16,
}

/// How high the parts of an area are to be: some of a fixed height, one below them
/// of at least some height, and some of a fixed height below that.
#[derive(Debug)]
pub struct RowPlan {
    pub above: Vec<u16>,
    pub middle: u16,
    pub below: Vec<u16>,
}

/// The parts of the whole screen.
#[derive(Debug, Clone, Copy, PartialEq, Eq, Structural)]
pub struct ScreenAreas {
    pub header: Area,
    pub progress: Area,
    pub body: Area,
    pub footer: Area,
}

/// The parts of the view of a string.
#[derive(Debug, Clone, Copy, PartialEq, Eq, Structural)]
pub struct InspectionAreas {
    pub info: Area,
    pub bytes: Area,
    pub help: Area,
}

/// Whether a part is as wide as the whole, and not to its left or right.
pub open spec fn spans(part: Area, whole: Area) -> bool {
    part.x == whole.x && part.width == whole.width
}

/// The sum of some heights.
pub open spec fn total(heights: Seq<u16>) -> int
    decreases heights.len(),
{
    if heights.len() == 0 {
        0
    } else {
        total(heights.drop_last()) + heights.last()
    }
}

/// Whether an area has room for every height of a plan, inside what coordinates
/// reach.
pub open spec fn has_room(area: Area, plan: RowPlan) -> bool {
    &&& total(plan.above@) + plan.middle + total(plan.below@) <= area.height
    &&& area.y + area.height <= u16::MAX
    &&& plan.middle <= i16::MAX
}

/// The heights of a plan in an area that has room for them: the middle takes what
/// the others leave.
pub open spec fn heights_in(area: Area, plan: RowPlan) -> Seq<u16> {
    plan.above@ + seq![
        (area.height - total(plan.above@) - total(plan.below@)) as u16,
    ] + plan.below@
}

/// Parts of an area with the given heights, one below the other from the top.
pub open spec fn stacked(area: Area, heights: Seq<u16>) -> Seq<Area> {
    Seq::new(
        heights.len(),
        |i: int|
            Area {
                x: area.x,
                y: (area.y + total(heights.take(i))) as u16,
                width: area.width,
                height: heights[i],
            },
    )
}

/// `Layout::split` of ratatui, downwards: it gives one area for each height asked
/// for, each as wide as the whole and at the same left edge. Where there is room for
/// all heights, the areas stand one below the other, those of a fixed height have
/// it, and the middle one takes the rest. Where there is not, nothing is said of
/// where the areas begin and how high they are: the solver may choose any of several
/// divisions.
#[verifier::external_body]
fn split_rows(area: Area, plan: &RowPlan) -> (parts: Vec<Area>)
    ensures
        parts@.len() == plan.above@.len() + 1 + plan.below@.len(),
        forall|i: int| 0 <= i < parts@.len() ==> spans(#[trigger] parts@[i], area),
        has_room(area, *plan) ==> parts@ == stacked(area, heights_in(area, *plan)),
{
    let mut rows = Constraint::from_lengths(plan.above.iter().copied());
    rows.push(Constraint::Min(plan.middle));
    rows.extend(Constraint::from_lengths(plan.below.iter().copied()));
    let whole = Rect { x: area.x, y: area.y, width: area.width, height: area.height };
    let split = Layout::default().direction(Direction::Vertical).constraints(rows).split(whole);
    split.iter().map(|r| Area { x: r.x, y: r.y, width: r.width, height: r.height }).collect()
}

/// How the whole screen is divided: three lines of header, one of progress, at least
/// five of body, three of footer.
pub fn screen_plan() -> (plan: RowPlan)
    ensures
        plan.above@ == seq![3u16, 1u16],
        plan.middle == 5,
        plan.below@ == seq![3u16],
{
    RowPlan { above: vec![3, 1], middle: 5, below: vec![3] }
}

/// How the view of a string is divided: six lines of what is said of it, at least
/// five of bytes, two of help.
pub fn inspection_plan() -> (plan: RowPlan)
    ensures
        plan.above@ == seq![6u16],
        plan.middle == 5,
        plan.below@ == seq![2u16],
{
    RowPlan { above: vec![6], middle: 5, below: vec![2] }
}

/// The parts of the screen, of areas in their order from the top.
pub fn screen_of(parts: &Vec<Area>) -> (s: ScreenAreas)
    requires
        parts@.len() == 4,
    ensures
        s == (ScreenAreas {
            header: parts@[0],
            progress: parts@[1],
            body: parts@[2],
            footer: parts@[3],
        }),
{
    ScreenAreas { header: parts[0], progress: parts[1], body: parts[2], footer: parts[3] }
}

/// The parts of the view of a string, of areas in their order from the top.
pub fn inspection_of(parts: &Vec<Area>) -> (s: InspectionAreas)
    requires
        parts@.len() == 3,
    ensures
        s == (InspectionAreas { info: parts@[0], bytes: parts@[1], help: parts@[2] }),
{
    InspectionAreas { info: parts[0], bytes: parts[1], help: parts[2] }
}

/// A part of an area: `height` lines, `down` lines from the top.
pub open spec fn slice_of(area: Area, down: int, height: int) -> Area {
    Area { x: area.x, y: (area.y + down) as u16, width: area.width, height: height as u16 }
}

/// The parts of a screen of at least twelve lines.
pub open spec fn screen_parts(area: Area) -> ScreenAreas {
    ScreenAreas {
        header: slice_of(area, 0, 3),
        progress: slice_of(area, 3, 1),
        body: slice_of(area, 4, area.height - 7),
        footer: slice_of(area, area.height - 3, 3),
    }
}

/// The parts of the view of a string in at least thirteen lines.
pub open spec fn inspection_parts(area: Area) -> InspectionAreas {
    InspectionAreas {
        info: slice_of(area, 0, 6),
        bytes: slice_of(area, 6, area.height - 8),
        help: slice_of(area, area.height - 2, 2),
    }
}

/// Whether a part begins right below another.
pub open spec fn below(lower: Area, upper: Area) -> bool {
    lower.x == upper.x && lower.width == upper.width && lower.y == upper.y + upper.height
}

/// Law: the parts of a screen stand one below the other and fill it: three lines of header, one
/// of progress, the body, and three of footer.
pub proof fn law_parts_fill_the_screen(area: Area)
    requires
        area.height >= 12,
        area.y + area.height <= u16::MAX,
    ensures
        ({
            let s = screen_parts(area);
            &&& s.header.x == area.x && s.header.width == area.width && s.header.y == area.y
            &&& below(s.progress, s.header) && below(s.body, s.progress) && below(s.footer, s.body)
            &&& s.footer.y + s.footer.height == area.y + area.height
            &&& s.header.height == 3 && s.progress.height == 1 && s.footer.height == 3
        }),
{
}

/// Law: the parts of the view of a string stand one below the other and fill it: six lines on the
/// string, its bytes, and two lines of help.
pub proof fn law_parts_fill_the_inspection(area: Area)
    requires
        area.height >= 13,
        area.y + area.height <= u16::MAX,
    ensures
        ({
            let s = inspection_parts(area);
            &&& s.info.x == area.x && s.info.width == area.width && s.info.y == area.y
            &&& below(s.bytes, s.info) && below(s.help, s.bytes)
            &&& s.help.y + s.help.height == area.y + area.height
            &&& s.info.height == 6 && s.help.height == 2
        }),
{
}

/// The parts of the whole screen. One of fewer than twelve lines may be divided in
/// any way.
pub fn screen_areas(area: Area) -> (s: ScreenAreas)
    ensures
        spans(s.header, area),
        spans(s.progress, area),
        spans(s.body, area),
        spans(s.footer, area),
        area.height >= 12 && area.y + area.height <= u16::MAX ==> s == screen_parts(area),
{
    let plan = screen_plan();
    let parts = split_rows(area, &plan);
    proof {
        lemma_total_of_one(3);
        lemma_total_of_two(3, 1);
        assert(total(plan.above@) == 4);
        assert(total(plan.below@) == 3);
        if area.height >= 12 && area.y + area.height <= u16::MAX {
            let h = heights_in(area, plan);
            let rest = (area.height - 7) as u16;
            assert(h == seq![3u16, 1u16, rest, 3u16]);
            assert(h.take(0) == Seq::<u16>::empty());
            assert(h.take(1) == seq![3u16]);
            assert(h.take(2) == seq![3u16, 1u16]);
            assert(h.take(3).drop_last() == seq![3u16, 1u16]);
            assert(total(h.take(3)) == 4 + rest);
        }
    }
    screen_of(&parts)
}

/// The parts of the view of a string. One of fewer than thirteen lines may be divided
/// in any way.
pub fn inspection_areas(area: Area) -> (s: InspectionAreas)
    ensures
        spans(s.info, area),
        spans(s.bytes, area),
        spans(s.help, area),
        area.height >= 13 && area.y + area.height <= u16::MAX ==> s == inspection_parts(area),
{
    let plan = inspection_plan();
    let parts = split_rows(area, &plan);
    proof {
        lemma_total_of_one(6);
        lemma_total_of_one(2);
        if area.height >= 13 && area.y + area.height <= u16::MAX {
            let h = heights_in(area, plan);
            let rest = (area.height - 8) as u16;
            assert(h == seq![6u16, rest, 2u16]);
            lemma_total_of_two(6, rest);
            assert(h.take(0) == Seq::<u16>::empty());
            assert(h.take(1) == seq![6u16]);
            assert(h.take(2) == seq![6u16, rest]);
        }
    }
    inspection_of(&parts)
}

proof fn lemma_total_of_one(a: u16)
    ensures
        total(seq![a]) == a,
{
    assert(seq![a].drop_last() == Seq::<u16>::empty());
    assert(total(Seq::<u16>::empty()) == 0);
}

proof fn lemma_total_of_two(a: u16, b: u16)
    ensures
        total(seq![a, b]) == a + b,
{
    lemma_total_of_one(a);
    assert(seq![a, b].drop_last() == seq![a]);
}

/// How many lines of a body are left for rows, inside its border, title and heading.
pub open spec fn rows_in(height: int) -> int {
    if height >= 5 {
        height - 4
    } else {
        1
    }
}

/// How many lines of a body are left for rows.
pub fn body_rows(height: u16) -> (n: usize)
    ensures
        n == rows_in(height as int),
{
    if height >= 5 {
        height as usize - 4
    } else {
        1
    }
}

/// Law: the lines of a body that are left for rows are all but four.
pub proof fn law_four_lines_are_no_rows(height: int)
    requires
        height >= 5,
    ensures
        rows_in(height) + 4 == height,
{
}

/// Law: a part of an area begins as many lines below its top as asked for, and has as many lines
/// as asked for.
pub proof fn law_part_is_where_asked_for(area: Area, down: int, height: int)
    requires
        0 <= down,
        0 <= height,
        down + height <= area.height,
        area.y + area.height <= u16::MAX,
    ensures
        ({
            let part = slice_of(area, down, height);
            &&& part.x == area.x && part.width == area.width
            &&& part.y == area.y + down
            &&& part.height == height
        }),
{
}

} // verus!
