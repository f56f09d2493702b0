use vstd::prelude::*;

use crate::image::CycleImage;

verus! {

/// A palette change at a time of day.
#[derive(Debug, Clone, PartialEq, Eq)]
pub struct TimedEvent {
    /// Time of day in seconds since midnight.
    pub time_of_day: u32,
    /// Which of the world's palettes applies from then on.
    pub palette_index: usize,
}

impl TimedEvent {
    pub fn new(time_of_day: u32, palette_index: usize) -> (r: Self)
        ensures
            r == (TimedEvent { time_of_day, palette_index }),
    {
        TimedEvent { time_of_day, palette_index }
    }

    pub fn time_of_day(&self) -> (r: u32)
        ensures
            r == self.time_of_day,
    {
        self.time_of_day
    }

    pub fn palette_index(&self) -> (r: usize)
        ensures
            r == self.palette_index,
    {
        self.palette_index
    }
}

/// A base image with the palettes it shows over a day and when.
#[derive(Debug, Clone)]
pub struct LivingWorld {
    pub name: Option<String>,
    pub base: CycleImage,
    pub palettes: Vec<CycleImage>,
    pub timeline: Vec<TimedEvent>,
}

impl LivingWorld {
    pub fn new(
        name: Option<String>,
        base: CycleImage,
        palettes: Vec<CycleImage>,
        timeline: Vec<TimedEvent>,
    ) -> (r: Self)
        ensures
            r == (LivingWorld { name, base, palettes, timeline }),
    {
        LivingWorld { name, base, palettes, timeline }
    }

    /// A world of one image, with no palette changes.
    pub fn only_base(base: CycleImage) -> (r: Self)
        ensures
            r.name is None,
            r.base == base,
            r.palettes@.len() == 0,
            r.timeline@.len() == 0,
    {
        LivingWorld { name: None, base, palettes: Vec::new(), timeline: Vec::new() }
    }

    /// A world of one image, named after the image's file.
    pub fn from_cycle_image(base: CycleImage) -> (r: Self)
        ensures
            r.base == base,
            r.name matches Some(n) ==> base@.filename == Some(n@),
            r.name is None ==> base@.filename is None,
            r.palettes@.len() == 0,
            r.timeline@.len() == 0,
    {
        let name = match base.filename() {
            Some(n) => Some(n.to_owned()),
            None => None,
        };
        LivingWorld { name, base, palettes: Vec::new(), timeline: Vec::new() }
    }

    pub fn name(&self) -> (r: Option<&str>)
        ensures
            r matches Some(s) ==> self.name matches Some(n) && n@ == s@,
            r is None ==> self.name is None,
    {
        match &self.name {
            Some(n) => Some(n.as_str()),
            None => None,
        }
    }

    pub fn base(&self) -> (r: &CycleImage)
        ensures
            *r == self.base,
    {
        &self.base
    }

    pub fn palettes(&self) -> (r: &[CycleImage])
        ensures
            r@ == self.palettes@,
    {
        self.palettes.as_slice()
    }

    pub fn timeline(&self) -> (r: &[TimedEvent])
        ensures
            r@ == self.timeline@,
    {
        self.timeline.as_slice()
    }

    pub fn into_base(self) -> (r: CycleImage)
        ensures
            r == self.base,
    {
        self.base
    }
}

/// Milliseconds in a day.
pub const DAY_MS: u64 = 86_400_000;

/// Where a time of day falls in a timeline: the palette in effect, the one
/// that comes next, how far the time is past the start of the span between
/// them and how long that span is, in milliseconds.
#[derive(Debug, Clone, Copy, PartialEq, Eq)]
pub struct TimelineSpan {
    pub from: usize,
    pub to: usize,
    pub elapsed: u64,
    pub length: u64,
}

/// The first event that starts after `time` milliseconds.
pub open spec fn first_after(events: Seq<TimedEvent>, time: int) -> Option<int>
    decreases events.len(),
{
    if events.len() == 0 {
        None
    } else {
        match first_after(events.drop_last(), time) {
            Some(k) => Some(k),
            None => if events.last().time_of_day * 1000 > time {
                Some(events.len() - 1)
            } else {
                None
            },
        }
    }
}

/// The span of a timeline that `time` milliseconds fall in. Before the
/// first event that starts later, the span runs from the event before it
/// (from midnight, with the day's last palette, if there is none); after
/// all events, from the last one to midnight, towards the first palette.
pub open spec fn span_at(events: Seq<TimedEvent>, time: int) -> Option<TimelineSpan> {
    if events.len() == 0 {
        None
    } else {
        match first_after(events, time) {
            Some(k) => {
                let prev = if k == 0 {
                    0
                } else {
                    events[k - 1].time_of_day * 1000
                };
                let next = events[k].time_of_day * 1000;
                Some(
                    TimelineSpan {
                        from: if k == 0 {
                            events.last().palette_index
                        } else {
                            events[k - 1].palette_index
                        },
                        to: events[k].palette_index,
                        elapsed: (time - prev) as u64,
                        length: (next - prev) as u64,
                    },
                )
            },
            None => {
                let prev = events.last().time_of_day * 1000;
                Some(
                    TimelineSpan {
                        from: events.last().palette_index,
                        to: events[0].palette_index,
                        elapsed: (time - prev) as u64,
                        length: (DAY_MS - prev) as u64,
                    },
                )
            },
        }
    }
}

proof fn lemma_first_after_prefix(events: Seq<TimedEvent>, time: int, k: int, j: int)
    requires
        0 < k <= events.len(),
        first_after(events.take(k), time) == Some(j),
    ensures
        first_after(events, time) == Some(j),
    decreases events.len() - k,
{
    if k < events.len() {
        assert(events.take(k + 1).drop_last() =~= events.take(k));
        lemma_first_after_prefix(events, time, k + 1, j);
    } else {
        assert(events.take(k) =~= events);
    }
}

proof fn lemma_first_after_none(events: Seq<TimedEvent>, time: int)
    requires
        first_after(events, time) is None,
    ensures
        forall|i: int| 0 <= i < events.len() ==> #[trigger] events[i].time_of_day * 1000 <= time,
    decreases events.len(),
{
    if events.len() > 0 {
        lemma_first_after_none(events.drop_last(), time);
        assert forall|i: int| 0 <= i < events.len() implies #[trigger] events[i].time_of_day * 1000
            <= time by {
            if i < events.len() - 1 {
                assert(events.drop_last()[i] == events[i]);
            }
        }
    }
}

/// Finds the span of a timeline that a time of day falls in; `None` for an
/// empty timeline.
pub fn span_at_time(events: &[TimedEvent], time_of_day: u64) -> (r: Option<TimelineSpan>)
    requires
        time_of_day < DAY_MS,
    ensures
        r == span_at(events@, time_of_day as int),
{
    let n = events.len();
    if n == 0 {
        return None;
    }
    let mut i: usize = 0;
    while i < n
        invariant
            n == events@.len(),
            i <= n,
            first_after(events@.take(i as int), time_of_day as int) is None,
        decreases n - i,
    {
        proof {
            assert(events@.take(i + 1).drop_last() =~= events@.take(i as int));
        }
        let next = (events[i].time_of_day as u64) * 1000;
        if next > time_of_day {
            proof {
                lemma_first_after_prefix(events@, time_of_day as int, (i + 1) as int, i as int);
            }
            let (from, prev) = if i == 0 {
                (events[n - 1].palette_index, 0u64)
            } else {
                proof {
                    lemma_first_after_none(events@.take(i as int), time_of_day as int);
                    assert(events@.take(i as int)[i - 1] == events@[i - 1]);
                }
                (events[i - 1].palette_index, (events[i - 1].time_of_day as u64) * 1000)
            };
            return Some(
                TimelineSpan {
                    from,
                    to: events[i].palette_index,
                    elapsed: time_of_day - prev,
                    length: next - prev,
                },
            );
        }
        i = i + 1;
    }
    proof {
        assert(events@.take(n as int) =~= events@);
        lemma_first_after_none(events@, time_of_day as int);
        assert(events@[n - 1] == events@.last());
    }
    let prev = (events[n - 1].time_of_day as u64) * 1000;
    Some(
        TimelineSpan {
            from: events[n - 1].palette_index,
            to: events[0].palette_index,
            elapsed: time_of_day - prev,
            length: DAY_MS - prev,
        },
    )
}

impl LivingWorld {
    /// The span of this world's timeline that a time of day, in
    /// milliseconds since midnight, falls in.
    pub fn timeline_span(&self, time_of_day: u64) -> (r: Option<TimelineSpan>)
        requires
            time_of_day < DAY_MS,
        ensures
            r == span_at(self.timeline@, time_of_day as int),
    {
        span_at_time(self.timeline.as_slice(), time_of_day)
    }
}

} // verus!
