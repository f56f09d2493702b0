use vstd::prelude::*;

use crate::color::Rgb;
use crate::image::TimedEvent;
use crate::palette::{Cycle, Palette};

verus! {

/// The format block of a world file.
#[derive(Debug, Clone, PartialEq, Eq)]
pub struct FormatInfo {
    pub version: u32,
    pub kind: String,
}

/// One palette of a world file, with its cycles.
#[derive(Debug, Clone)]
pub struct MagratheaWorldPaletteInfo {
    pub id: u32,
    pub name: String,
    pub colors: Palette,
    pub cycles: Vec<Cycle>,
}

/// The data block of a world file.
#[derive(Debug, Clone)]
pub struct MagratheaWorldData {
    pub name: String,
    pub width: u32,
    pub height: u32,
    pub palette_infos: Vec<MagratheaWorldPaletteInfo>,
    pub pixels: Vec<u8>,
}

/// A palette from a list of colors, which must hold exactly 256.
pub fn palette_from_list(colors: &[Rgb]) -> (r: Option<Palette>)
    ensures
        (r is Some) == (colors@.len() == 256),
        r matches Some(p) ==> p.wf() && p@ == colors@,
{
    if colors.len() != 256 {
        return None;
    }
    let p = Palette::from_colors(colors);
    assert(p@ =~= colors@);
    Some(p)
}

/// The direction of a cycle as world files write it: 0 forward, 2
/// reversed; other values are refused.
pub fn reverse_from_code(value: i32) -> (r: Option<bool>)
    ensures
        r == if value == 0 {
            Some(false)
        } else if value == 2 {
            Some(true)
        } else {
            None::<bool>
        },
{
    if value == 0 {
        Some(false)
    } else if value == 2 {
        Some(true)
    } else {
        None
    }
}

/// The position of the first of `names` equal to `name`.
pub open spec fn first_index_of(names: Seq<Seq<char>>, name: Seq<char>) -> Option<int>
    decreases names.len(),
{
    if names.len() == 0 {
        None
    } else {
        match first_index_of(names.drop_last(), name) {
            Some(i) => Some(i),
            None => if names.last() == name {
                Some(names.len() - 1)
            } else {
                None
            },
        }
    }
}

/// The names of a list of strings.
pub open spec fn names_view(names: Seq<String>) -> Seq<Seq<char>> {
    names.map_values(|s: String| s@)
}

fn find_name(names: &[String], name: &String) -> (r: Option<usize>)
    ensures
        match first_index_of(names_view(names@), name@) {
            Some(i) => r == Some(i as usize),
            None => r is None,
        },
{
    let mut i: usize = 0;
    while i < names.len()
        invariant
            i <= names@.len(),
            first_index_of(names_view(names@.take(i as int)), name@) is None,
        decreases names@.len() - i,
    {
        proof {
            assert(names_view(names@.take(i + 1)).drop_last() =~= names_view(names@.take(i as int)));
        }
        if names[i] == *name {
            proof {
                assert(names_view(names@.take(i + 1)).last() == names@[i as int]@);
                lemma_first_index_prefix(names@, name@, (i + 1) as int, i as int);
            }
            return Some(i);
        }
        i = i + 1;
    }
    proof {
        assert(names@.take(i as int) =~= names@);
    }
    None
}

proof fn lemma_first_index_prefix(names: Seq<String>, name: Seq<char>, k: int, j: int)
    requires
        0 < k <= names.len(),
        first_index_of(names_view(names.take(k)), name) == Some(j),
    ensures
        first_index_of(names_view(names), name) == Some(j),
    decreases names.len() - k,
{
    if k < names.len() {
        assert(names_view(names.take(k + 1)).drop_last() =~= names_view(names.take(k)));
        lemma_first_index_prefix(names, name, k + 1, j);
    } else {
        assert(names.take(k) =~= names);
    }
}

/// The events of a timeline that names palettes: each name becomes the
/// position of the first palette of that name; `None` if a name is not
/// among them.
pub open spec fn resolved(names: Seq<Seq<char>>, timeline: Seq<(u32, Seq<char>)>) -> Option<
    Seq<TimedEvent>,
>
    decreases timeline.len(),
{
    if timeline.len() == 0 {
        Some(Seq::empty())
    } else {
        match resolved(names, timeline.drop_last()) {
            None => None,
            Some(evs) => match first_index_of(names, timeline.last().1) {
                None => None,
                Some(i) => Some(
                    evs.push(TimedEvent { time_of_day: timeline.last().0, palette_index: i as usize }),
                ),
            },
        }
    }
}

/// The view of a named timeline.
pub open spec fn timeline_view(timeline: Seq<(u32, String)>) -> Seq<(u32, Seq<char>)> {
    timeline.map_values(|e: (u32, String)| (e.0, e.1@))
}

/// Turns a timeline of palette names into one of palette positions.
pub fn resolve_timeline(names: &[String], timeline: &[(u32, String)]) -> (r: Option<Vec<TimedEvent>>)
    ensures
        match resolved(names_view(names@), timeline_view(timeline@)) {
            Some(evs) => r matches Some(v) && v@ == evs,
            None => r is None,
        },
{
    let mut out: Vec<TimedEvent> = Vec::new();
    let mut i: usize = 0;
    while i < timeline.len()
        invariant
            i <= timeline@.len(),
            resolved(names_view(names@), timeline_view(timeline@.take(i as int))) == Some(out@),
        decreases timeline@.len() - i,
    {
        proof {
            assert(timeline_view(timeline@.take(i + 1)).drop_last() =~= timeline_view(
                timeline@.take(i as int),
            ));
        }
        let (time_of_day, name) = &timeline[i];
        match find_name(names, name) {
            None => {
                proof {
                    lemma_resolved_prefix_none(names_view(names@), timeline_view(timeline@), (i + 1) as int);
                    assert(timeline_view(timeline@.take(i + 1)) =~= timeline_view(timeline@).take(i + 1));
                }
                return None;
            },
            Some(index) => {
                out.push(TimedEvent::new(*time_of_day, index));
            },
        }
        i = i + 1;
    }
    proof {
        assert(timeline@.take(i as int) =~= timeline@);
    }
    Some(out)
}

proof fn lemma_resolved_prefix_none(names: Seq<Seq<char>>, timeline: Seq<(u32, Seq<char>)>, k: int)
    requires
        0 <= k <= timeline.len(),
        resolved(names, timeline.take(k)) is None,
    ensures
        resolved(names, timeline) is None,
    decreases timeline.len() - k,
{
    if k < timeline.len() {
        assert(timeline.take(k + 1).drop_last() =~= timeline.take(k));
        lemma_resolved_prefix_none(names, timeline, k + 1);
    } else {
        assert(timeline.take(k) =~= timeline);
    }
}

} // verus!
