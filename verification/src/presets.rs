//! Presets: named groups of rooms that are dropped into the world together.

use vstd::prelude::*;
use crate::aesthetics::Aesthetics;
use crate::rng::WorldgenRng;
use crate::room::{
    IVec2, RoomDetails, RoomDimensions, RoomType, RoomWithDetailsNoId, StructureCollection, UVec2,
};

verus! {

/// Farthest from the origin that a room of a preset may be placed on either
/// axis, and the largest side that it may have.
pub const PRESET_LIMIT: u32 = 0x0400_0000;

/// The names of the presets of each kind.
#[derive(Debug, Clone, Default)]
pub struct PresetsConfig {
    pub start: Vec<String>,
    pub normal: Vec<String>,
    pub boss: Vec<String>,
}

/// A room of a preset under its name.
#[derive(Debug, Clone)]
pub struct NamedPresetRoom {
    pub name: String,
    pub room: PresetRoom,
}

/// A named group of rooms with the connections between them.
#[derive(Debug, Clone)]
pub struct Preset {
    pub name: String,
    /// The rooms in a fixed order: the place of a room in this list is the
    /// id that the connections of the preset know it by.
    pub rooms: Vec<NamedPresetRoom>,
    pub connections: Vec<PresetRoomConnection>,
    /// Hints for the placement. Without effect.
    pub modifiers: Vec<PositionalModifier>,
}

/// How a room of a preset is to be made.
#[derive(Debug, Clone)]
pub struct PresetRoom {
    pub size: PresetRoomSize,
    pub position: PresetRoomPosition,
    pub aesthetics: Vec<Aesthetics>,
}

/// The presets at hand, and which of them are of which kind.
#[derive(Default, Debug)]
pub struct RoomPresetResource {
    pub config: PresetsConfig,
    pub presets: Vec<Preset>,
}

/// The size of a room of a preset.
#[derive(Debug, Clone, Copy, PartialEq)]
pub enum PresetRoomSize {
    /// Length and height as given.
    Fixed(UVec2),
    /// Length and height drawn from the ranges given, both ends included.
    Range((u32, u32), (u32, u32)),
    /// Left open: ten by ten.
    Dynamic,
}

/// The place of a room inside its preset.
#[derive(Debug, Clone, Copy, PartialEq)]
pub enum PresetRoomPosition {
    Fixed(i32, i32),
    /// Left open: the origin.
    Dynamic,
}

/// A connection between two rooms of a preset, by their names.
#[derive(Debug, Clone)]
pub struct PresetRoomConnection {
    pub room1: String,
    pub room2: String,
}

/// A hint for the placement of two rooms of a preset.
#[derive(Debug, Clone)]
pub enum PositionalModifier {
    NextTo(String, String),
    SameAxis(String, String),
    DistanceAway(String, String, i32),
}

/// The place of the first room of the list that has the given name.
pub open spec fn index_of_name(rooms: Seq<NamedPresetRoom>, name: Seq<char>, n: int) -> Option<usize>
    decreases n,
{
    if n <= 0 {
        None
    } else {
        match index_of_name(rooms, name, n - 1) {
            Some(i) => Some(i),
            None => if rooms[n - 1].name@ == name {
                Some((n - 1) as usize)
            } else {
                None
            },
        }
    }
}

/// The first preset of the list that has the given name.
pub open spec fn preset_named(presets: Seq<Preset>, name: Seq<char>, n: int) -> Option<int>
    decreases n,
{
    if n <= 0 {
        None
    } else {
        match preset_named(presets, name, n - 1) {
            Some(i) => Some(i),
            None => if presets[n - 1].name@ == name {
                Some(n - 1)
            } else {
                None
            },
        }
    }
}

impl PresetRoomSize {
    /// Ranges are not empty, no side is beyond `PRESET_LIMIT`, and the
    /// tiles of the largest room can be counted.
    pub open spec fn valid(&self) -> bool {
        match self {
            PresetRoomSize::Fixed(xy) => xy.x <= PRESET_LIMIT && xy.y <= PRESET_LIMIT && xy.x * xy.y
                <= isize::MAX,
            PresetRoomSize::Range(x, y) => x.0 <= x.1 <= PRESET_LIMIT && y.0 <= y.1 <= PRESET_LIMIT
                && x.1 * y.1 <= isize::MAX,
            PresetRoomSize::Dynamic => true,
        }
    }

    /// `size` is a size that the description allows.
    pub open spec fn allows(&self, size: UVec2) -> bool {
        match self {
            PresetRoomSize::Fixed(xy) => size == *xy,
            PresetRoomSize::Range(x, y) => x.0 <= size.x <= x.1 && y.0 <= size.y <= y.1,
            PresetRoomSize::Dynamic => size == (UVec2 { x: 10, y: 10 }),
        }
    }

    /// Whether the description can be used.
    pub fn is_valid(&self) -> (r: bool)
        ensures
            r == self.valid(),
    {
        match self {
            PresetRoomSize::Fixed(xy) => xy.x <= PRESET_LIMIT && xy.y <= PRESET_LIMIT && area(
                xy.x,
                xy.y,
            ) <= isize::MAX as u64,
            PresetRoomSize::Range(x, y) => x.0 <= x.1 && x.1 <= PRESET_LIMIT && y.0 <= y.1 && y.1
                <= PRESET_LIMIT && area(x.1, y.1) <= isize::MAX as u64,
            PresetRoomSize::Dynamic => true,
        }
    }

    /// The size that the description gives: the fixed one, one drawn from
    /// the ranges, or `None` where it is left open.
    pub fn get(&self, rng: &mut WorldgenRng) -> (r: Option<UVec2>)
        requires
            self.valid(),
        ensures
            match r {
                Some(size) => !(self is Dynamic) && self.allows(size),
                None => self is Dynamic,
            },
    {
        match self {
            PresetRoomSize::Fixed(xy) => Some(*xy),
            PresetRoomSize::Range(x, y) => {
                let x_drawn: u32 = rng.u32(x.0, x.1);
                let y_drawn: u32 = rng.u32(y.0, y.1);
                Some(UVec2 { x: x_drawn, y: y_drawn })
            },
            PresetRoomSize::Dynamic => None,
        }
    }
}

impl PresetRoomPosition {
    /// The place is not beyond `PRESET_LIMIT`.
    pub open spec fn valid(&self) -> bool {
        match self {
            PresetRoomPosition::Fixed(x, y) => -PRESET_LIMIT <= *x <= PRESET_LIMIT && -PRESET_LIMIT
                <= *y <= PRESET_LIMIT,
            PresetRoomPosition::Dynamic => true,
        }
    }

    /// The anchor that the description gives: the fixed one, or the origin.
    pub open spec fn anchor(&self) -> IVec2 {
        match self {
            PresetRoomPosition::Fixed(x, y) => IVec2 { x: *x, y: *y },
            PresetRoomPosition::Dynamic => IVec2 { x: 0, y: 0 },
        }
    }

    /// Whether the description can be used.
    pub fn is_valid(&self) -> (r: bool)
        ensures
            r == self.valid(),
    {
        match self {
            PresetRoomPosition::Fixed(x, y) => -(PRESET_LIMIT as i64) <= *x as i64 && *x as i64
                <= PRESET_LIMIT as i64 && -(PRESET_LIMIT as i64) <= *y as i64 && *y as i64
                <= PRESET_LIMIT as i64,
            PresetRoomPosition::Dynamic => true,
        }
    }

    /// The place that the description gives, or `None` where it is left open.
    pub fn get(&self, _rng: &mut WorldgenRng) -> (r: Option<IVec2>)
        ensures
            match r {
                Some(p) => !(self is Dynamic) && p == self.anchor(),
                None => self is Dynamic,
            },
    {
        match self {
            PresetRoomPosition::Fixed(x, y) => Some(IVec2 { x: *x, y: *y }),
            PresetRoomPosition::Dynamic => None,
        }
    }
}

impl PresetRoom {
    /// Size and place can be used.
    pub open spec fn valid(&self) -> bool {
        self.size.valid() && self.position.valid()
    }

    /// `made` is a room that the description allows: at its place, of a
    /// size that it allows, with its decorations, and no main room.
    pub open spec fn allows(&self, made: RoomWithDetailsNoId) -> bool {
        &&& made.dimensions.anchor == self.position.anchor()
        &&& made.dimensions.length <= u32::MAX
        &&& made.dimensions.height <= u32::MAX
        &&& self.size.allows(
            UVec2 { x: made.dimensions.length as u32, y: made.dimensions.height as u32 },
        )
        &&& !made.details.is_main
        &&& made.details.room_type is Normal
        &&& made.details.aesthetic_modifiers@ == self.aesthetics@
    }
}

impl Preset {
    /// Every room can be made, and every connection names two rooms of the preset.
    pub open spec fn valid(&self) -> bool {
        &&& forall|i: int| 0 <= i < self.rooms@.len() ==> (#[trigger] self.rooms@[i]).room.valid()
        &&& forall|i: int|
            0 <= i < self.connections@.len() ==> {
                &&& index_of_name(
                    self.rooms@,
                    (#[trigger] self.connections@[i]).room1@,
                    self.rooms@.len() as int,
                ) is Some
                &&& index_of_name(
                    self.rooms@,
                    self.connections@[i].room2@,
                    self.rooms@.len() as int,
                ) is Some
            }
    }

    /// The place of the first room that has the given name.
    pub fn room_index(&self, name: &String) -> (r: Option<usize>)
        ensures
            r == index_of_name(self.rooms@, name@, self.rooms@.len() as int),
            r is Some ==> r.unwrap() < self.rooms@.len(),
    {
        let mut i: usize = 0;
        while i < self.rooms.len()
            invariant
                i <= self.rooms@.len(),
                index_of_name(self.rooms@, name@, i as int) is None,
            decreases self.rooms@.len() - i,
        {
            if self.rooms[i].name == *name {
                proof {
                    lemma_index_of_name_stays(
                        self.rooms@,
                        name@,
                        i as int + 1,
                        self.rooms@.len() as int,
                    );
                }
                return Some(i);
            }
            i += 1;
        }
        None
    }

    /// Whether the preset can be used.
    pub fn is_valid(&self) -> (r: bool)
        ensures
            r == self.valid(),
    {
        let mut i: usize = 0;
        while i < self.rooms.len()
            invariant
                i <= self.rooms@.len(),
                forall|k: int| 0 <= k < i ==> (#[trigger] self.rooms@[k]).room.valid(),
            decreases self.rooms@.len() - i,
        {
            if !self.rooms[i].room.size.is_valid() || !self.rooms[i].room.position.is_valid() {
                return false;
            }
            i += 1;
        }
        let mut k: usize = 0;
        while k < self.connections.len()
            invariant
                k <= self.connections@.len(),
                forall|j: int| 0 <= j < self.rooms@.len() ==> (#[trigger] self.rooms@[j]).room.valid(),
                forall|j: int|
                    0 <= j < k ==> {
                        &&& index_of_name(
                            self.rooms@,
                            (#[trigger] self.connections@[j]).room1@,
                            self.rooms@.len() as int,
                        ) is Some
                        &&& index_of_name(
                            self.rooms@,
                            self.connections@[j].room2@,
                            self.rooms@.len() as int,
                        ) is Some
                    },
            decreases self.connections@.len() - k,
        {
            if self.room_index(&self.connections[k].room1).is_none() || self.room_index(
                &self.connections[k].room2,
            ).is_none() {
                return false;
            }
            k += 1;
        }
        true
    }
}

/// A name found among the first `n` rooms is the one found among more.
pub proof fn lemma_index_of_name_stays(rooms: Seq<NamedPresetRoom>, name: Seq<char>, n: int, m: int)
    requires
        0 <= n <= m,
        index_of_name(rooms, name, n) is Some,
    ensures
        index_of_name(rooms, name, m) == index_of_name(rooms, name, n),
    decreases m - n,
{
    if n < m {
        lemma_index_of_name_stays(rooms, name, n, m - 1);
    }
}

/// A preset found among the first `n` is the one found among more.
pub proof fn lemma_preset_named_stays(presets: Seq<Preset>, name: Seq<char>, n: int, m: int)
    requires
        0 <= n <= m,
        preset_named(presets, name, n) is Some,
    ensures
        preset_named(presets, name, m) == preset_named(presets, name, n),
    decreases m - n,
{
    if n < m {
        lemma_preset_named_stays(presets, name, n, m - 1);
    }
}

/// What `preset_named` finds is the place of a preset.
pub proof fn lemma_preset_named_in_range(presets: Seq<Preset>, name: Seq<char>, n: int)
    requires
        0 <= n <= presets.len(),
    ensures
        match preset_named(presets, name, n) {
            Some(i) => 0 <= i < n && presets[i].name@ == name,
            None => true,
        },
    decreases n,
{
    if n > 0 {
        lemma_preset_named_in_range(presets, name, n - 1);
    }
}

impl RoomPresetResource {
    /// Every preset can be used.
    pub open spec fn wf(&self) -> bool {
        forall|i: int| 0 <= i < self.presets@.len() ==> (#[trigger] self.presets@[i]).valid()
    }

    /// The names of the presets of a kind; `None` for a kind that is not known.
    pub open spec fn names_of(&self, kind: Seq<char>) -> Option<Seq<String>> {
        if kind == "start"@ {
            Some(self.config.start@)
        } else if kind == "normal"@ {
            Some(self.config.normal@)
        } else if kind == "boss"@ {
            Some(self.config.boss@)
        } else {
            None
        }
    }

    /// The preset of a kind that the pick falls on: the first preset with
    /// the name at the place `pick` in the list of the kind.
    pub open spec fn picked(&self, kind: Seq<char>, pick: int) -> Option<int> {
        match self.names_of(kind) {
            Some(names) => if 0 <= pick < names.len() {
                preset_named(self.presets@, names[pick]@, self.presets@.len() as int)
            } else {
                None
            },
            None => None,
        }
    }

    /// The presets with their kinds.
    pub fn new(config: PresetsConfig, presets: Vec<Preset>) -> (r: Self)
        ensures
            r.config == config,
            r.presets == presets,
    {
        RoomPresetResource { config, presets }
    }

    /// The first preset that has the given name.
    pub fn get_preset_by_name(&self, input: &str) -> (r: Option<&Preset>)
        ensures
            match r {
                Some(p) => preset_named(self.presets@, input@, self.presets@.len() as int) is Some
                    && *p == self.presets@[preset_named(
                    self.presets@,
                    input@,
                    self.presets@.len() as int,
                ).unwrap()],
                None => preset_named(self.presets@, input@, self.presets@.len() as int) is None,
            },
    {
        let mut i: usize = 0;
        while i < self.presets.len()
            invariant
                i <= self.presets@.len(),
                preset_named(self.presets@, input@, i as int) is None,
            decreases self.presets@.len() - i,
        {
            if same_text(self.presets[i].name.as_str(), input) {
                proof {
                    lemma_preset_named_stays(
                        self.presets@,
                        input@,
                        i as int + 1,
                        self.presets@.len() as int,
                    );
                }
                return Some(&self.presets[i]);
            }
            i += 1;
        }
        None
    }

    /// A preset of the given kind, picked at random among the names of the kind.
    pub fn get_preset_by_type(&self, input: &str, rng: &mut WorldgenRng) -> (r: Option<&Preset>)
        ensures
            match r {
                Some(p) => exists|pick: int| #[trigger]
                    self.picked(input@, pick) is Some && *p == self.presets@[self.picked(
                        input@,
                        pick,
                    ).unwrap()],
                None => self.names_of(input@) is None || self.names_of(input@).unwrap().len() == 0
                    || exists|pick: int| #[trigger]
                    self.picked(input@, pick) is None && 0 <= pick < self.names_of(
                        input@,
                    ).unwrap().len(),
            },
    {
        match self.get_preset_names_in_type(input) {
            Some(inner) => {
                if inner.len() == 0 {
                    return None;
                }
                let pick: usize = rng.usize(0, inner.len() - 1);
                let found = self.get_preset_by_name(inner[pick].as_str());
                assert(self.picked(input@, pick as int) == preset_named(
                    self.presets@,
                    inner@[pick as int]@,
                    self.presets@.len() as int,
                ));
                found
            },
            None => None,
        }
    }

    /// The names of the presets of a kind: "start", "normal" or "boss".
    fn get_preset_names_in_type(&self, input: &str) -> (r: Option<&Vec<String>>)
        ensures
            match r {
                Some(names) => self.names_of(input@) == Some(names@),
                None => self.names_of(input@) is None,
            },
    {
        if same_text(input, "start") {
            Some(&self.config.start)
        } else if same_text(input, "normal") {
            Some(&self.config.normal)
        } else if same_text(input, "boss") {
            Some(&self.config.boss)
        } else {
            None
        }
    }
}

/// The number of tiles of a rectangle.
fn area(length: u32, height: u32) -> (r: u64)
    ensures
        r == length * height,
{
    assert(0 <= length * height <= 0xffff_ffff * 0xffff_ffff) by (nonlinear_arith)
        requires
            0 <= length <= 0xffff_ffff,
            0 <= height <= 0xffff_ffff,
    ;
    (length as u64) * (height as u64)
}

/// Whether two texts are the same.
pub fn same_text(a: &str, b: &str) -> (r: bool)
    ensures
        r == (a@ == b@),
{
    let left: String = a.to_string();
    let right: String = b.to_string();
    proof {
        vstd::string::to_string_from_display_ensures_for_str(a, left);
        vstd::string::to_string_from_display_ensures_for_str(b, right);
    }
    left == right
}

/// The rooms that a preset asks for, and the connections between them as
/// pairs of places in the list of rooms.
pub fn generate_rooms_from_preset(preset: &Preset, rng: &mut WorldgenRng) -> (r: (
    StructureCollection,
    Vec<(usize, usize)>,
))
    requires
        preset.valid(),
    ensures
        r.0.structures@.len() == preset.rooms@.len(),
        forall|i: int|
            0 <= i < preset.rooms@.len() ==> preset.rooms@[i].room.allows(#[trigger] r.0.structures@[i]),
        r.1@.len() == preset.connections@.len(),
        forall|i: int|
            0 <= i < preset.connections@.len() ==> {
                &&& Some((#[trigger] r.1@[i]).0) == index_of_name(
                    preset.rooms@,
                    preset.connections@[i].room1@,
                    preset.rooms@.len() as int,
                )
                &&& Some(r.1@[i].1) == index_of_name(
                    preset.rooms@,
                    preset.connections@[i].room2@,
                    preset.rooms@.len() as int,
                )
                &&& r.1@[i].0 < preset.rooms@.len()
                &&& r.1@[i].1 < preset.rooms@.len()
            },
{
    let mut rooms: Vec<RoomWithDetailsNoId> = Vec::new();
    let mut connections: Vec<(usize, usize)> = Vec::new();
    let mut index: usize = 0;
    while index < preset.rooms.len()
        invariant
            preset.valid(),
            index <= preset.rooms@.len(),
            rooms@.len() == index,
            forall|i: int| 0 <= i < index ==> preset.rooms@[i].room.allows(#[trigger] rooms@[i]),
        decreases preset.rooms@.len() - index,
    {
        let preset_room = &preset.rooms[index].room;
        assert(preset.rooms@[index as int].room.valid());
        let dimensions = calculate_dimensions(preset_room, rng);
        let details = calculate_details(preset_room);
        rooms.push(RoomWithDetailsNoId { dimensions, details });
        index += 1;
    }
    let mut k: usize = 0;
    while k < preset.connections.len()
        invariant
            preset.valid(),
            k <= preset.connections@.len(),
            connections@.len() == k,
            forall|i: int|
                0 <= i < k ==> {
                    &&& Some((#[trigger] connections@[i]).0) == index_of_name(
                        preset.rooms@,
                        preset.connections@[i].room1@,
                        preset.rooms@.len() as int,
                    )
                    &&& Some(connections@[i].1) == index_of_name(
                        preset.rooms@,
                        preset.connections@[i].room2@,
                        preset.rooms@.len() as int,
                    )
                    &&& connections@[i].0 < preset.rooms@.len()
                    &&& connections@[i].1 < preset.rooms@.len()
                },
        decreases preset.connections@.len() - k,
    {
        let connection = &preset.connections[k];
        let first = preset.room_index(&connection.room1);
        let second = preset.room_index(&connection.room2);
        if let (Some(a), Some(b)) = (first, second) {
            connections.push((a, b));
        }
        k += 1;
    }
    (StructureCollection::new(rooms), connections)
}

/// Place and size of a room of a preset.
fn calculate_dimensions(preset_room: &PresetRoom, rng: &mut WorldgenRng) -> (r: RoomDimensions)
    requires
        preset_room.valid(),
    ensures
        r.anchor == preset_room.position.anchor(),
        r.length <= u32::MAX,
        r.height <= u32::MAX,
        preset_room.size.allows(UVec2 { x: r.length as u32, y: r.height as u32 }),
{
    let anchor = calculate_anchor(preset_room, rng);
    let size = calculate_size(preset_room, rng);
    RoomDimensions { anchor, length: size.x as usize, height: size.y as usize }
}

/// What a room of a preset is: a plain room with the decorations asked for,
/// and no main room.
fn calculate_details(preset_room: &PresetRoom) -> (r: RoomDetails)
    ensures
        !r.is_main,
        r.room_type is Normal,
        r.aesthetic_modifiers@ == preset_room.aesthetics@,
{
    RoomDetails {
        is_main: false,
        room_type: RoomType::Normal,
        aesthetic_modifiers: preset_room.aesthetics.clone(),
    }
}

/// The place of a room of a preset: as given, or the origin.
fn calculate_anchor(preset_room: &PresetRoom, rng: &mut WorldgenRng) -> (r: IVec2)
    ensures
        r == preset_room.position.anchor(),
{
    match preset_room.position.get(rng) {
        Some(anchor) => anchor,
        None => IVec2 { x: 0, y: 0 },
    }
}

/// The size of a room of a preset: as given or drawn, or ten by ten.
fn calculate_size(preset_room: &PresetRoom, rng: &mut WorldgenRng) -> (r: UVec2)
    requires
        preset_room.size.valid(),
    ensures
        preset_room.size.allows(r),
{
    match preset_room.size.get(rng) {
        Some(size) => size,
        None => UVec2 { x: 10, y: 10 },
    }
}

} // verus!
