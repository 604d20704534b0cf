//! The typed world structures and the tagged-value bridge: projecting a
//! generic compound tree into `Level` / `Section` values by key name, and
//! serializing them back.
use vstd::prelude::*;

use crate::nbt::Nbt;
use crate::region::WorldError;

verus! {

/// The compound key `Sections`.
pub open spec fn key_sections() -> Seq<u8> {
    seq![83u8, 101, 99, 116, 105, 111, 110, 115]
}

/// Builds the compound key `Sections`.
pub fn k_sections() -> (r: Vec<u8>)
    ensures
        r@ == key_sections(),
{
    let r = vec_from(&[83u8, 101, 99, 116, 105, 111, 110, 115]);
    assert(r@ =~= key_sections());
    r
}

/// The compound key `TileEntities`.
pub open spec fn key_tile_entities() -> Seq<u8> {
    seq![84u8, 105, 108, 101, 69, 110, 116, 105, 116, 105, 101, 115]
}

/// Builds the compound key `TileEntities`.
pub fn k_tile_entities() -> (r: Vec<u8>)
    ensures
        r@ == key_tile_entities(),
{
    let r = vec_from(&[84u8, 105, 108, 101, 69, 110, 116, 105, 116, 105, 101, 115]);
    assert(r@ =~= key_tile_entities());
    r
}

/// The compound key `BlockEntities`.
pub open spec fn key_block_entities() -> Seq<u8> {
    seq![66u8, 108, 111, 99, 107, 69, 110, 116, 105, 116, 105, 101, 115]
}

/// Builds the compound key `BlockEntities`.
pub fn k_block_entities() -> (r: Vec<u8>)
    ensures
        r@ == key_block_entities(),
{
    let r = vec_from(&[66u8, 108, 111, 99, 107, 69, 110, 116, 105, 116, 105, 101, 115]);
    assert(r@ =~= key_block_entities());
    r
}

/// The compound key `InhabitedTime`.
pub open spec fn key_inhabited_time() -> Seq<u8> {
    seq![73u8, 110, 104, 97, 98, 105, 116, 101, 100, 84, 105, 109, 101]
}

/// Builds the compound key `InhabitedTime`.
pub fn k_inhabited_time() -> (r: Vec<u8>)
    ensures
        r@ == key_inhabited_time(),
{
    let r = vec_from(&[73u8, 110, 104, 97, 98, 105, 116, 101, 100, 84, 105, 109, 101]);
    assert(r@ =~= key_inhabited_time());
    r
}

/// The compound key `LastUpdate`.
pub open spec fn key_last_update() -> Seq<u8> {
    seq![76u8, 97, 115, 116, 85, 112, 100, 97, 116, 101]
}

/// Builds the compound key `LastUpdate`.
pub fn k_last_update() -> (r: Vec<u8>)
    ensures
        r@ == key_last_update(),
{
    let r = vec_from(&[76u8, 97, 115, 116, 85, 112, 100, 97, 116, 101]);
    assert(r@ =~= key_last_update());
    r
}

/// The compound key `LightPopulated`.
pub open spec fn key_light_populated() -> Seq<u8> {
    seq![76u8, 105, 103, 104, 116, 80, 111, 112, 117, 108, 97, 116, 101, 100]
}

/// Builds the compound key `LightPopulated`.
pub fn k_light_populated() -> (r: Vec<u8>)
    ensures
        r@ == key_light_populated(),
{
    let r = vec_from(&[76u8, 105, 103, 104, 116, 80, 111, 112, 117, 108, 97, 116, 101, 100]);
    assert(r@ =~= key_light_populated());
    r
}

/// The compound key `TerrainPopulated`.
pub open spec fn key_terrain_populated() -> Seq<u8> {
    seq![84u8, 101, 114, 114, 97, 105, 110, 80, 111, 112, 117, 108, 97, 116, 101, 100]
}

/// Builds the compound key `TerrainPopulated`.
pub fn k_terrain_populated() -> (r: Vec<u8>)
    ensures
        r@ == key_terrain_populated(),
{
    let r = vec_from(&[84u8, 101, 114, 114, 97, 105, 110, 80, 111, 112, 117, 108, 97, 116, 101, 100]);
    assert(r@ =~= key_terrain_populated());
    r
}

/// The compound key `xPos`.
pub open spec fn key_x_pos() -> Seq<u8> {
    seq![120u8, 80, 111, 115]
}

/// Builds the compound key `xPos`.
pub fn k_x_pos() -> (r: Vec<u8>)
    ensures
        r@ == key_x_pos(),
{
    let r = vec_from(&[120u8, 80, 111, 115]);
    assert(r@ =~= key_x_pos());
    r
}

/// The compound key `zPos`.
pub open spec fn key_z_pos() -> Seq<u8> {
    seq![122u8, 80, 111, 115]
}

/// Builds the compound key `zPos`.
pub fn k_z_pos() -> (r: Vec<u8>)
    ensures
        r@ == key_z_pos(),
{
    let r = vec_from(&[122u8, 80, 111, 115]);
    assert(r@ =~= key_z_pos());
    r
}

/// The compound key `Biomes`.
pub open spec fn key_biomes() -> Seq<u8> {
    seq![66u8, 105, 111, 109, 101, 115]
}

/// Builds the compound key `Biomes`.
pub fn k_biomes() -> (r: Vec<u8>)
    ensures
        r@ == key_biomes(),
{
    let r = vec_from(&[66u8, 105, 111, 109, 101, 115]);
    assert(r@ =~= key_biomes());
    r
}

/// The compound key `HeightMap`.
pub open spec fn key_height_map() -> Seq<u8> {
    seq![72u8, 101, 105, 103, 104, 116, 77, 97, 112]
}

/// Builds the compound key `HeightMap`.
pub fn k_height_map() -> (r: Vec<u8>)
    ensures
        r@ == key_height_map(),
{
    let r = vec_from(&[72u8, 101, 105, 103, 104, 116, 77, 97, 112]);
    assert(r@ =~= key_height_map());
    r
}

/// The compound key `Y`.
pub open spec fn key_y() -> Seq<u8> {
    seq![89u8]
}

/// Builds the compound key `Y`.
pub fn k_y() -> (r: Vec<u8>)
    ensures
        r@ == key_y(),
{
    let r = vec_from(&[89u8]);
    assert(r@ =~= key_y());
    r
}

/// The compound key `BlockLight`.
pub open spec fn key_block_light() -> Seq<u8> {
    seq![66u8, 108, 111, 99, 107, 76, 105, 103, 104, 116]
}

/// Builds the compound key `BlockLight`.
pub fn k_block_light() -> (r: Vec<u8>)
    ensures
        r@ == key_block_light(),
{
    let r = vec_from(&[66u8, 108, 111, 99, 107, 76, 105, 103, 104, 116]);
    assert(r@ =~= key_block_light());
    r
}

/// The compound key `Blocks`.
pub open spec fn key_blocks() -> Seq<u8> {
    seq![66u8, 108, 111, 99, 107, 115]
}

/// Builds the compound key `Blocks`.
pub fn k_blocks() -> (r: Vec<u8>)
    ensures
        r@ == key_blocks(),
{
    let r = vec_from(&[66u8, 108, 111, 99, 107, 115]);
    assert(r@ =~= key_blocks());
    r
}

/// The compound key `Data`.
pub open spec fn key_data() -> Seq<u8> {
    seq![68u8, 97, 116, 97]
}

/// Builds the compound key `Data`.
pub fn k_data() -> (r: Vec<u8>)
    ensures
        r@ == key_data(),
{
    let r = vec_from(&[68u8, 97, 116, 97]);
    assert(r@ =~= key_data());
    r
}

/// The compound key `SkyLight`.
pub open spec fn key_sky_light() -> Seq<u8> {
    seq![83u8, 107, 121, 76, 105, 103, 104, 116]
}

/// Builds the compound key `SkyLight`.
pub fn k_sky_light() -> (r: Vec<u8>)
    ensures
        r@ == key_sky_light(),
{
    let r = vec_from(&[83u8, 107, 121, 76, 105, 103, 104, 116]);
    assert(r@ =~= key_sky_light());
    r
}

/// The compound key `Level`.
pub open spec fn key_level() -> Seq<u8> {
    seq![76u8, 101, 118, 101, 108]
}

/// Builds the compound key `Level`.
pub fn k_level() -> (r: Vec<u8>)
    ensures
        r@ == key_level(),
{
    let r = vec_from(&[76u8, 101, 118, 101, 108]);
    assert(r@ =~= key_level());
    r
}

/// The compound key `DataVersion`.
pub open spec fn key_data_version() -> Seq<u8> {
    seq![68u8, 97, 116, 97, 86, 101, 114, 115, 105, 111, 110]
}

/// Builds the compound key `DataVersion`.
pub fn k_data_version() -> (r: Vec<u8>)
    ensures
        r@ == key_data_version(),
{
    let r = vec_from(&[68u8, 97, 116, 97, 86, 101, 114, 115, 105, 111, 110]);
    assert(r@ =~= key_data_version());
    r
}

/// Bytes of a key, as a fresh vector.
pub(crate) fn vec_from(lit: &[u8]) -> (r: Vec<u8>)
    ensures
        r@ == lit@,
{
    let mut out: Vec<u8> = Vec::new();
    let mut i: usize = 0;
    while i < lit.len()
        invariant
            i <= lit@.len(),
            out@ == lit@.take(i as int),
        decreases lit@.len() - i,
    {
        out.push(lit[i]);
        assert(out@ =~= lit@.take(i + 1));
        i += 1;
    }
    assert(lit@.take(lit@.len() as int) =~= lit@);
    out
}

/// Whether a name equals a key literal.
pub(crate) fn name_is(name: &Vec<u8>, lit: &Vec<u8>) -> (r: bool)
    ensures
        r == (name@ == lit@),
{
    if name.len() != lit.len() {
        assert(name@ != lit@);
        return false;
    }
    let mut i: usize = 0;
    while i < lit.len()
        invariant
            i <= lit@.len(),
            name@.len() == lit@.len(),
            forall|j: int| 0 <= j < i ==> name@[j] == lit@[j],
        decreases lit@.len() - i,
    {
        if name[i] != lit[i] {
            return false;
        }
        i += 1;
    }
    assert(name@ =~= lit@);
    true
}


/// One vertical slice of a chunk column, in the legacy per-section byte
/// array form: block ids, packed block-state nibbles and the two light maps.
#[derive(Debug, PartialEq)]
pub struct Section {
    pub y: u8,
    pub block_light: Vec<i8>,
    pub blocks: Vec<i8>,
    pub data: Vec<i8>,
    pub sky_light: Vec<i8>,
}

/// Mathematical model of a `Section`.
#[verifier::ext_equal]
pub struct SectionV {
    pub y: u8,
    pub block_light: Seq<i8>,
    pub blocks: Seq<i8>,
    pub data: Seq<i8>,
    pub sky_light: Seq<i8>,
}

impl View for Section {
    type V = SectionV;

    open spec fn view(&self) -> SectionV {
        SectionV {
            y: self.y,
            block_light: self.block_light@,
            blocks: self.blocks@,
            data: self.data@,
            sky_light: self.sky_light@,
        }
    }
}

/// The modern packed surface-height projection; part of the modern tree
/// shape but unused by the legacy `Level`.
#[derive(Debug, PartialEq)]
pub struct HeightMap {
    pub motion_blocking: Vec<i64>,
}

/// The legacy typed projection of a chunk's `level` compound.
#[derive(Debug, PartialEq)]
pub struct Level {
    pub sections: Vec<Section>,
    pub block_entities: Vec<Nbt>,
    pub inhabited_time: i64,
    pub last_update: i64,
    pub light_populated: bool,
    pub terrain_populated: bool,
    pub x: i32,
    pub z: i32,
    pub biomes: Vec<i8>,
    pub height_map: Vec<i32>,
}

/// Mathematical model of a `Level`.
#[verifier::ext_equal]
pub struct LevelV {
    pub sections: Seq<SectionV>,
    pub block_entities: Seq<Nbt>,
    pub inhabited_time: i64,
    pub last_update: i64,
    pub light_populated: bool,
    pub terrain_populated: bool,
    pub x: i32,
    pub z: i32,
    pub biomes: Seq<i8>,
    pub height_map: Seq<i32>,
}

/// Model of a section sequence.
pub open spec fn sections_view(s: Seq<Section>) -> Seq<SectionV> {
    s.map_values(|x: Section| x@)
}

impl View for Level {
    type V = LevelV;

    open spec fn view(&self) -> LevelV {
        LevelV {
            sections: sections_view(self.sections@),
            block_entities: self.block_entities@,
            inhabited_time: self.inhabited_time,
            last_update: self.last_update,
            light_populated: self.light_populated,
            terrain_populated: self.terrain_populated,
            x: self.x,
            z: self.z,
            biomes: self.biomes@,
            height_map: self.height_map@,
        }
    }
}

/// One world column: the generic `level` compound it wraps, the optional
/// format marker, and its absolute chunk coordinates, which come from the
/// lookup that found it, never from the payload.
#[derive(Debug, PartialEq)]
pub struct Chunk {
    pub level: Vec<(Vec<u8>, Nbt)>,
    pub data_version: Option<i32>,
    pub x: isize,
    pub z: isize,
}

/// Model of a section with no populated fields.
pub open spec fn default_section_v() -> SectionV {
    SectionV {
        y: 0,
        block_light: Seq::empty(),
        blocks: Seq::empty(),
        data: Seq::empty(),
        sky_light: Seq::empty(),
    }
}

/// Model of a level with no populated fields: empty lists and arrays,
/// zeroed counters and coordinates, cleared flags.
pub open spec fn default_level_v() -> LevelV {
    LevelV {
        sections: Seq::empty(),
        block_entities: Seq::empty(),
        inhabited_time: 0,
        last_update: 0,
        light_populated: false,
        terrain_populated: false,
        x: 0,
        z: 0,
        biomes: Seq::empty(),
        height_map: Seq::empty(),
    }
}

/// A section the wire form can carry: the vertical index is one of the 16
/// slices and the arrays fit their length prefixes.
pub open spec fn section_v_wf(s: SectionV) -> bool {
    &&& s.y <= 15
    &&& s.block_light.len() < 0x8000_0000
    &&& s.blocks.len() < 0x8000_0000
    &&& s.data.len() < 0x8000_0000
    &&& s.sky_light.len() < 0x8000_0000
}

/// A level the wire form can carry: well-formed sections, compound block
/// entities, and arrays that fit their length prefixes.
pub open spec fn level_v_wf(l: LevelV) -> bool {
    &&& l.sections.len() < 0x8000_0000
    &&& forall|i: int| 0 <= i < l.sections.len() ==> section_v_wf(#[trigger] l.sections[i])
    &&& l.block_entities.len() < 0x8000_0000
    &&& forall|i: int|
        0 <= i < l.block_entities.len() ==> (#[trigger] l.block_entities[i]) is Compound
    &&& forall|i: int|
        0 <= i < l.block_entities.len() ==> crate::nbt::wf(#[trigger] l.block_entities[i])
    &&& l.biomes.len() < 0x8000_0000
    &&& l.height_map.len() < 0x8000_0000
}

/// Projecting one named entry into a section under construction: a known
/// key must carry a value of the right shape, an unknown key is ignored.
pub open spec fn section_step(s: SectionV, e: (Vec<u8>, Nbt)) -> Option<SectionV> {
    let name = e.0@;
    if name == key_y() {
        match e.1 {
            Nbt::Byte(b) => if b >= 0 {
                Some(SectionV { y: b as u8, ..s })
            } else {
                None
            },
            _ => None,
        }
    } else if name == key_block_light() {
        match e.1 {
            Nbt::ByteArray(a) => Some(SectionV { block_light: a@, ..s }),
            _ => None,
        }
    } else if name == key_blocks() {
        match e.1 {
            Nbt::ByteArray(a) => Some(SectionV { blocks: a@, ..s }),
            _ => None,
        }
    } else if name == key_data() {
        match e.1 {
            Nbt::ByteArray(a) => Some(SectionV { data: a@, ..s }),
            _ => None,
        }
    } else if name == key_sky_light() {
        match e.1 {
            Nbt::ByteArray(a) => Some(SectionV { sky_light: a@, ..s }),
            _ => None,
        }
    } else {
        Some(s)
    }
}

/// Folding a section's entries over `section_step`, left to right.
pub open spec fn section_fold(s: SectionV, entries: Seq<(Vec<u8>, Nbt)>) -> Option<SectionV>
    decreases entries.len(),
{
    if entries.len() == 0 {
        Some(s)
    } else {
        match section_step(s, entries[0]) {
            Some(s2) => section_fold(s2, entries.drop_first()),
            None => None,
        }
    }
}

/// The section a compound node projects to, starting from the defaults.
pub open spec fn section_of_tree(t: Nbt) -> Option<SectionV> {
    match t {
        Nbt::Compound(entries) => section_fold(default_section_v(), entries@),
        _ => None,
    }
}

/// Projecting the elements of a section list, left to right.
pub open spec fn sections_fold(acc: Seq<SectionV>, items: Seq<Nbt>) -> Option<Seq<SectionV>>
    decreases items.len(),
{
    if items.len() == 0 {
        Some(acc)
    } else {
        match section_of_tree(items[0]) {
            Some(sv) => sections_fold(acc.push(sv), items.drop_first()),
            None => None,
        }
    }
}

/// Every element of a list is a compound node.
pub open spec fn all_compounds(items: Seq<Nbt>) -> bool {
    forall|i: int| 0 <= i < items.len() ==> (#[trigger] items[i]) is Compound
}

/// Projecting one named entry into a level under construction: a known key
/// must carry a value of the right shape, an unknown key joins the
/// unmapped diagnostics.
pub open spec fn level_step(l: LevelV, u: Seq<(Vec<u8>, Nbt)>, e: (Vec<u8>, Nbt)) -> Option<
    (LevelV, Seq<(Vec<u8>, Nbt)>),
> {
    let name = e.0@;
    if name == key_sections() {
        match e.1 {
            Nbt::List(items) => match sections_fold(Seq::empty(), items@) {
                Some(ss) => Some((LevelV { sections: ss, ..l }, u)),
                None => None,
            },
            _ => None,
        }
    } else if name == key_tile_entities() || name == key_block_entities() {
        match e.1 {
            Nbt::List(items) => if all_compounds(items@) {
                Some((LevelV { block_entities: items@, ..l }, u))
            } else {
                None
            },
            _ => None,
        }
    } else if name == key_inhabited_time() {
        match e.1 {
            Nbt::Long(n) => Some((LevelV { inhabited_time: n, ..l }, u)),
            _ => None,
        }
    } else if name == key_last_update() {
        match e.1 {
            Nbt::Long(n) => Some((LevelV { last_update: n, ..l }, u)),
            _ => None,
        }
    } else if name == key_light_populated() {
        match e.1 {
            Nbt::Byte(b) => Some((LevelV { light_populated: b != 0, ..l }, u)),
            _ => None,
        }
    } else if name == key_terrain_populated() {
        match e.1 {
            Nbt::Byte(b) => Some((LevelV { terrain_populated: b != 0, ..l }, u)),
            _ => None,
        }
    } else if name == key_x_pos() {
        match e.1 {
            Nbt::Int(n) => Some((LevelV { x: n, ..l }, u)),
            _ => None,
        }
    } else if name == key_z_pos() {
        match e.1 {
            Nbt::Int(n) => Some((LevelV { z: n, ..l }, u)),
            _ => None,
        }
    } else if name == key_biomes() {
        match e.1 {
            Nbt::ByteArray(a) => Some((LevelV { biomes: a@, ..l }, u)),
            _ => None,
        }
    } else if name == key_height_map() {
        match e.1 {
            Nbt::IntArray(a) => Some((LevelV { height_map: a@, ..l }, u)),
            _ => None,
        }
    } else {
        Some((l, u.push(e)))
    }
}

/// Folding a level's entries over `level_step`, left to right.
pub open spec fn level_fold(
    l: LevelV,
    u: Seq<(Vec<u8>, Nbt)>,
    entries: Seq<(Vec<u8>, Nbt)>,
) -> Option<(LevelV, Seq<(Vec<u8>, Nbt)>)>
    decreases entries.len(),
{
    if entries.len() == 0 {
        Some((l, u))
    } else {
        match level_step(l, u, entries[0]) {
            Some((l2, u2)) => level_fold(l2, u2, entries.drop_first()),
            None => None,
        }
    }
}

/// The level and unmapped diagnostics a compound's entries project to,
/// starting from the defaults.
pub open spec fn level_of_entries(entries: Seq<(Vec<u8>, Nbt)>) -> Option<
    (LevelV, Seq<(Vec<u8>, Nbt)>),
> {
    level_fold(default_level_v(), Seq::empty(), entries)
}

/// The first entry under the given key, if any.
pub open spec fn find_entry(entries: Seq<(Vec<u8>, Nbt)>, key: Seq<u8>) -> Option<Nbt>
    decreases entries.len(),
{
    if entries.len() == 0 {
        None
    } else if entries[0].0@ == key {
        Some(entries[0].1)
    } else {
        find_entry(entries.drop_first(), key)
    }
}

/// Whether `t` is exactly the tree that serializing the section `sv`
/// produces: a compound with the five fields in declaration order.
pub open spec fn is_section_tree(t: Nbt, sv: SectionV) -> bool {
    &&& t is Compound
    &&& t->Compound_0@.len() == 5
    &&& t->Compound_0@[0].0@ == key_y()
    &&& t->Compound_0@[0].1 == Nbt::Byte(sv.y as i8)
    &&& t->Compound_0@[1].0@ == key_block_light()
    &&& t->Compound_0@[1].1 is ByteArray
    &&& t->Compound_0@[1].1->ByteArray_0@ == sv.block_light
    &&& t->Compound_0@[2].0@ == key_blocks()
    &&& t->Compound_0@[2].1 is ByteArray
    &&& t->Compound_0@[2].1->ByteArray_0@ == sv.blocks
    &&& t->Compound_0@[3].0@ == key_data()
    &&& t->Compound_0@[3].1 is ByteArray
    &&& t->Compound_0@[3].1->ByteArray_0@ == sv.data
    &&& t->Compound_0@[4].0@ == key_sky_light()
    &&& t->Compound_0@[4].1 is ByteArray
    &&& t->Compound_0@[4].1->ByteArray_0@ == sv.sky_light
}

/// Whether `t` is exactly the tree that serializing the level `lv`
/// produces: a compound with the ten fields in declaration order.
pub open spec fn is_level_tree(t: Nbt, lv: LevelV) -> bool {
    &&& t is Compound
    &&& t->Compound_0@.len() == 10
    &&& t->Compound_0@[0].0@ == key_sections()
    &&& t->Compound_0@[0].1 is List
    &&& t->Compound_0@[0].1->List_0@.len() == lv.sections.len()
    &&& forall|i: int|
        0 <= i < lv.sections.len() ==> is_section_tree(
            #[trigger] t->Compound_0@[0].1->List_0@[i],
            lv.sections[i],
        )
    &&& t->Compound_0@[1].0@ == key_block_entities()
    &&& t->Compound_0@[1].1 is List
    &&& t->Compound_0@[1].1->List_0@ == lv.block_entities
    &&& t->Compound_0@[2].0@ == key_inhabited_time()
    &&& t->Compound_0@[2].1 == Nbt::Long(lv.inhabited_time)
    &&& t->Compound_0@[3].0@ == key_last_update()
    &&& t->Compound_0@[3].1 == Nbt::Long(lv.last_update)
    &&& t->Compound_0@[4].0@ == key_light_populated()
    &&& t->Compound_0@[4].1 == Nbt::Byte(
        if lv.light_populated {
            1i8
        } else {
            0i8
        },
    )
    &&& t->Compound_0@[5].0@ == key_terrain_populated()
    &&& t->Compound_0@[5].1 == Nbt::Byte(
        if lv.terrain_populated {
            1i8
        } else {
            0i8
        },
    )
    &&& t->Compound_0@[6].0@ == key_x_pos()
    &&& t->Compound_0@[6].1 == Nbt::Int(lv.x)
    &&& t->Compound_0@[7].0@ == key_z_pos()
    &&& t->Compound_0@[7].1 == Nbt::Int(lv.z)
    &&& t->Compound_0@[8].0@ == key_biomes()
    &&& t->Compound_0@[8].1 is ByteArray
    &&& t->Compound_0@[8].1->ByteArray_0@ == lv.biomes
    &&& t->Compound_0@[9].0@ == key_height_map()
    &&& t->Compound_0@[9].1 is IntArray
    &&& t->Compound_0@[9].1->IntArray_0@ == lv.height_map
}

/// A chunk's `level` compound that the wire form can carry.
pub open spec fn chunk_level_wf(level: Vec<(Vec<u8>, Nbt)>) -> bool {
    crate::nbt::wf(Nbt::Compound(level))
}

/// Wire bytes of a whole chunk document: an unnamed root compound holding
/// the `Level` compound and, when present, the format marker.
pub open spec fn chunk_doc_bytes(level: Vec<(Vec<u8>, Nbt)>, dv: Option<i32>) -> Seq<u8> {
    seq![10u8] + crate::nbt::be2(0) + crate::nbt::entry_bytes(
        key_level(),
        Nbt::Compound(level),
    ) + (match dv {
        Some(n) => crate::nbt::entry_bytes(key_data_version(), Nbt::Int(n)),
        None => Seq::<u8>::empty(),
    }) + seq![0u8]
}

/// Serializes a chunk's generic tree and format marker as one document.
pub fn chunk_doc(level: Vec<(Vec<u8>, Nbt)>, dv: Option<i32>) -> (r: Vec<u8>)
    requires
        chunk_level_wf(level),
    ensures
        r@ == chunk_doc_bytes(level, dv),
{
    let ghost level0 = level;
    let mut root_entries: Vec<(Vec<u8>, Nbt)> = Vec::new();
    root_entries.push((k_level(), Nbt::Compound(level)));
    match dv {
        Some(n) => {
            root_entries.push((k_data_version(), Nbt::Int(n)));
        },
        None => {},
    }
    let root = Nbt::Compound(root_entries);
    assert(crate::nbt::wf(root)) by {
        assert(forall|j: int|
            0 <= j < root->Compound_0@.len() ==> (#[trigger] root->Compound_0@[j]).0@.len()
                < 0x10000);
        assert(forall|j: int|
            0 <= j < root->Compound_0@.len() ==> crate::nbt::wf(
                (#[trigger] root->Compound_0@[j]).1,
            ));
    }
    let name: Vec<u8> = Vec::new();
    let out = crate::nbt::encode_root(&name, &root);
    proof {
        let es = root->Compound_0@;
        match dv {
            Some(n) => {
                let rest = es.drop_first();
                assert(rest.drop_first().len() == 0);
                assert(crate::nbt::entries_bytes(rest.drop_first()) == Seq::<u8>::empty());
                assert(crate::nbt::entries_bytes(rest) =~= crate::nbt::entry_bytes(
                    key_data_version(),
                    Nbt::Int(n),
                ));
            },
            None => {
                assert(es.drop_first().len() == 0);
                assert(crate::nbt::entries_bytes(es.drop_first()) == Seq::<u8>::empty());
            },
        }
        assert(out@ =~= chunk_doc_bytes(level0, dv));
    }
    out
}

/// A readable chunk document: some well-formed compound root encodes a
/// prefix of `raw`, its `Level` entry holds a compound, and its format
/// marker, where present, holds an integer.
pub open spec fn chunk_doc_at(raw: Seq<u8>, name: Seq<u8>, t: Nbt, end: int) -> bool {
    &&& crate::nbt::root_at(raw, name, t, end)
    &&& match find_entry(t->Compound_0@, key_level()) {
        Some(v) => v is Compound,
        None => false,
    }
    &&& match find_entry(t->Compound_0@, key_data_version()) {
        Some(v) => v is Int,
        None => true,
    }
}

/// Whether any readable chunk document begins `raw`.
pub open spec fn has_chunk_doc(raw: Seq<u8>) -> bool {
    exists|name: Seq<u8>, t: Nbt, end: int| #[trigger] chunk_doc_at(raw, name, t, end)
}

/// Two documents that begin the same bytes take the same extent, carry the
/// same root name, and their entries correspond pairwise: same names, same
/// value tags, same value payloads.
pub proof fn lemma_root_correspond(
    raw: Seq<u8>,
    n1: Seq<u8>,
    t1: Nbt,
    e1: int,
    n2: Seq<u8>,
    t2: Nbt,
    e2: int,
)
    requires
        crate::nbt::root_at(raw, n1, t1, e1),
        crate::nbt::root_at(raw, n2, t2, e2),
    ensures
        e1 == e2,
        n1 == n2,
        t1->Compound_0@.len() == t2->Compound_0@.len(),
        forall|k: int|
            0 <= k < t1->Compound_0@.len() ==> (#[trigger] t1->Compound_0@[k]).0@
                == t2->Compound_0@[k].0@ && crate::nbt::tag_of(t1->Compound_0@[k].1)
                == crate::nbt::tag_of(t2->Compound_0@[k].1) && crate::nbt::payload(
                t1->Compound_0@[k].1,
            ) == crate::nbt::payload(t2->Compound_0@[k].1),
{
    let w1 = crate::nbt::root_bytes(n1, t1);
    let w2 = crate::nbt::root_bytes(n2, t2);
    assert(w1 == raw.subrange(0, e1));
    assert(w2 == raw.subrange(0, e2));
    assert(w1.len() == e1 && w2.len() == e2);
    assert forall|j: int| 0 <= j < 2 implies crate::nbt::be2(n1.len() as int)[j]
        == crate::nbt::be2(n2.len() as int)[j] by {
        assert(w1[1 + j] == crate::nbt::be2(n1.len() as int)[j]);
        assert(w2[1 + j] == crate::nbt::be2(n2.len() as int)[j]);
        assert(w1[1 + j] == raw[1 + j]);
        assert(w2[1 + j] == raw[1 + j]);
    }
    assert(crate::nbt::be2(n1.len() as int) =~= crate::nbt::be2(n2.len() as int));
    crate::nbt::lemma_be2_inject(n1.len() as int, n2.len() as int);
    let nl = n1.len() as int;
    assert(n1 =~= raw.subrange(3, 3 + nl)) by {
        assert(forall|j: int| 0 <= j < nl ==> w1[3 + j] == n1[j] && w1[3 + j] == raw[3
            + j]);
    }
    assert(n2 =~= raw.subrange(3, 3 + nl)) by {
        assert(forall|j: int| 0 <= j < nl ==> w2[3 + j] == n2[j] && w2[3 + j] == raw[3
            + j]);
    }
    let p1 = crate::nbt::payload(t1).len() as int;
    let p2 = crate::nbt::payload(t2).len() as int;
    let sp = raw.skip(3 + nl);
    assert(crate::nbt::payload(t1) =~= sp.subrange(0, p1)) by {
        assert(forall|j: int|
            0 <= j < p1 ==> w1[3 + nl + j] == crate::nbt::payload(t1)[j] && w1[3 + nl + j]
                == raw[3 + nl + j]);
    }
    assert(crate::nbt::payload(t2) =~= sp.subrange(0, p2)) by {
        assert(forall|j: int|
            0 <= j < p2 ==> w2[3 + nl + j] == crate::nbt::payload(t2)[j] && w2[3 + nl + j]
                == raw[3 + nl + j]);
    }
    assert(crate::nbt::entries_bytes(t1->Compound_0@) + seq![0u8] =~= sp.subrange(0, p1));
    assert(crate::nbt::entries_bytes(t2->Compound_0@) + seq![0u8] =~= sp.subrange(0, p2));
    crate::nbt::lemma_entries_correspond(
        t1->Compound_0@,
        t2->Compound_0@,
        sp,
        p1,
        p2,
    );
}

/// The first entry under a key corresponds across two pairwise
/// corresponding entry sequences: present in one exactly when present in
/// the other, with the same value tag and value payload.
pub proof fn lemma_find_entry_correspond(
    e1: Seq<(Vec<u8>, Nbt)>,
    e2: Seq<(Vec<u8>, Nbt)>,
    key: Seq<u8>,
)
    requires
        e1.len() == e2.len(),
        forall|k: int|
            0 <= k < e1.len() ==> (#[trigger] e1[k]).0@ == e2[k].0@ && crate::nbt::tag_of(
                e1[k].1,
            ) == crate::nbt::tag_of(e2[k].1) && crate::nbt::payload(e1[k].1)
                == crate::nbt::payload(e2[k].1),
    ensures
        match (find_entry(e1, key), find_entry(e2, key)) {
            (Some(v1), Some(v2)) => crate::nbt::tag_of(v1) == crate::nbt::tag_of(v2)
                && crate::nbt::payload(v1) == crate::nbt::payload(v2),
            (None, None) => true,
            _ => false,
        },
    decreases e1.len(),
{
    if e1.len() == 0 {
    } else if e1[0].0@ == key {
        assert(e2[0].0@ == key);
    } else {
        assert(e2[0].0@ != key);
        assert forall|k: int|
            0 <= k < e1.drop_first().len() implies (#[trigger] e1.drop_first()[k]).0@
            == e2.drop_first()[k].0@ && crate::nbt::tag_of(e1.drop_first()[k].1)
            == crate::nbt::tag_of(e2.drop_first()[k].1) && crate::nbt::payload(
            e1.drop_first()[k].1,
        ) == crate::nbt::payload(e2.drop_first()[k].1) by {
            assert(e1.drop_first()[k] == e1[k + 1]);
            assert(e2.drop_first()[k] == e2[k + 1]);
        }
        lemma_find_entry_correspond(e1.drop_first(), e2.drop_first(), key);
    }
}

/// Whether the chunk `c` is a faithful reading of the document bytes
/// `raw`: some well-formed compound root encodes to a prefix of `raw`, its
/// `Level` entry is the chunk's tree, and its format marker matches.
pub open spec fn chunk_parsed_from(c: Chunk, raw: Seq<u8>, x: isize, z: isize) -> bool {
    &&& c.x == x
    &&& c.z == z
    &&& exists|name: Seq<u8>, t: Nbt, end: int|
        #![trigger crate::nbt::root_bytes(name, t), raw.subrange(0, end)]
        {
            &&& crate::nbt::root_at(raw, name, t, end)
            &&& find_entry(t->Compound_0@, key_level()) == Some(Nbt::Compound(c.level))
            &&& match find_entry(t->Compound_0@, key_data_version()) {
                Some(v) => v is Int && c.data_version == Some(v->Int_0),
                None => c.data_version is None,
            }
        }
}

/// The first entry of any document that begins the bytes `chunk_doc`
/// serializes is the written `Level` entry: same key, a compound value
/// with the same payload, found by the entry lookup; and the remaining
/// entries sit right behind it.
#[verifier::rlimit(100)]
#[verifier::spinoff_prover]
proof fn lemma_doc_head(
    level: Vec<(Vec<u8>, Nbt)>,
    dv: Option<i32>,
    name: Seq<u8>,
    t: Nbt,
    end: int,
)
    requires
        chunk_level_wf(level),
        crate::nbt::root_at(chunk_doc_bytes(level, dv), name, t, end),
    ensures
        ({
            let raw = chunk_doc_bytes(level, dv);
            let te = t->Compound_0@;
            let cp = crate::nbt::payload(Nbt::Compound(level)).len() as int;
            &&& te.len() > 0
            &&& te[0].0@ == key_level()
            &&& te[0].1 is Compound
            &&& crate::nbt::payload(te[0].1) == crate::nbt::payload(Nbt::Compound(level))
            &&& find_entry(te, key_level()) == Some(te[0].1)
            &&& crate::nbt::entries_at(raw.skip(3), 8 + cp, te.drop_first(), end - 3)
        }),
{
    let raw = chunk_doc_bytes(level, dv);
    let w = crate::nbt::root_bytes(name, t);
    let te = t->Compound_0@;
    let e1 = crate::nbt::entry_bytes(key_level(), Nbt::Compound(level));
    let cp = crate::nbt::payload(Nbt::Compound(level)).len() as int;
    assert(e1.len() == 8 + cp);
    assert(w.len() == end);
    assert forall|j: int| 0 <= j < 2 implies crate::nbt::be2(name.len() as int)[j]
        == crate::nbt::be2(0)[j] by {
        assert(w[1 + j] == crate::nbt::be2(name.len() as int)[j]);
        assert(w[1 + j] == raw[1 + j]);
        assert(raw[1 + j] == crate::nbt::be2(0)[j]);
    }
    assert(crate::nbt::be2(name.len() as int) =~= crate::nbt::be2(0));
    crate::nbt::lemma_be2_inject(name.len() as int, 0);
    let s3 = raw.skip(3);
    let p = crate::nbt::payload(t).len() as int;
    assert(crate::nbt::payload(t) =~= s3.subrange(0, p)) by {
        assert(forall|j: int|
            0 <= j < p ==> w[3 + j] == crate::nbt::payload(t)[j] && w[3 + j] == raw[3
                + j]);
    }
    assert(crate::nbt::entries_bytes(te) + seq![0u8] =~= s3.subrange(0, p));
    assert(crate::nbt::entries_at(s3, 0, te, p));
    assert(s3[0] == e1[0] && e1[0] == 10);
    if te.len() == 0 {
        assert((crate::nbt::entries_bytes(te) + seq![0u8])[0] == s3.subrange(0, p)[0]);
        assert(false);
    }
    crate::nbt::lemma_entry_head(s3, 0, te, p);
    let n0 = te[0].0@.len() as int;
    assert(s3[0] == crate::nbt::tag_of(te[0].1));
    assert forall|j: int| 0 <= j < 2 implies crate::nbt::be2(n0)[j] == crate::nbt::be2(
        5,
    )[j] by {
        assert(crate::nbt::be2(n0)[j] == s3.subrange(1, 3)[j]);
        assert(s3[1 + j] == e1[1 + j]);
        assert(e1[1 + j] == crate::nbt::be2(5)[j]);
    }
    assert(crate::nbt::be2(n0) =~= crate::nbt::be2(5));
    crate::nbt::lemma_be2_inject(n0, 5);
    assert(te[0].0@ =~= key_level()) by {
        assert(forall|j: int|
            0 <= j < 5 ==> te[0].0@[j] == s3.subrange(3, 8)[j] && s3[3 + j] == e1[3 + j]
                && e1[3 + j] == key_level()[j]);
    }
    let p0 = crate::nbt::payload(te[0].1).len() as int;
    let s8 = s3.skip(8);
    assert(crate::nbt::payload(te[0].1) =~= s8.subrange(0, p0)) by {
        assert(forall|j: int|
            0 <= j < p0 ==> crate::nbt::payload(te[0].1)[j] == s3.subrange(8, 8 + p0)[j]);
    }
    assert(crate::nbt::payload(Nbt::Compound(level)) =~= s8.subrange(0, cp)) by {
        assert(forall|j: int|
            0 <= j < cp ==> s3[8 + j] == e1[8 + j] && e1[8 + j] == crate::nbt::payload(
                Nbt::Compound(level),
            )[j]);
    }
    crate::nbt::lemma_node_extent(te[0].1, Nbt::Compound(level), s8, p0, cp);
    assert(crate::nbt::payload(te[0].1) == crate::nbt::payload(Nbt::Compound(level)));
    assert(find_entry(te, key_level()) == Some(te[0].1));
}

/// A format-marker entry at the head of the remaining bytes reads back as
/// exactly the written integer, and nothing follows it.
#[verifier::rlimit(100)]
#[verifier::spinoff_prover]
proof fn lemma_doc_marker(
    rest: Seq<(Vec<u8>, Nbt)>,
    s3: Seq<u8>,
    off: int,
    p: int,
    n: i32,
)
    requires
        crate::nbt::entries_at(s3, off, rest, p),
        0 <= off,
        off + 19 <= s3.len(),
        s3.subrange(off, off + 19) == crate::nbt::entry_bytes(
            key_data_version(),
            Nbt::Int(n),
        ) + seq![0u8],
    ensures
        rest.len() == 1,
        rest[0].1 is Int,
        rest[0].1->Int_0 == n,
        find_entry(rest, key_data_version()) == Some(rest[0].1),
{
    let edv = crate::nbt::entry_bytes(key_data_version(), Nbt::Int(n));
    assert(edv.len() == 18);
    if rest.len() == 0 {
        assert((crate::nbt::entries_bytes(rest) + seq![0u8])[0] == s3.subrange(off, p)[0]);
        assert(s3[off] == 0);
        assert(s3.subrange(off, off + 19)[0] == edv[0]);
        assert(edv[0] == 3);
        assert(false);
    }
    crate::nbt::lemma_entry_head(s3, off, rest, p);
    let n1 = rest[0].0@.len() as int;
    assert(s3[off] == crate::nbt::tag_of(rest[0].1));
    assert(s3[off] == s3.subrange(off, off + 19)[0]);
    assert(crate::nbt::tag_of(rest[0].1) == 3);
    assert(rest[0].1 is Int);
    assert forall|j: int| 0 <= j < 2 implies crate::nbt::be2(n1)[j] == crate::nbt::be2(
        11,
    )[j] by {
        assert(crate::nbt::be2(n1)[j] == s3.subrange(off + 1, off + 3)[j]);
        assert(s3[off + 1 + j] == s3.subrange(off, off + 19)[1 + j]);
        assert(edv[1 + j] == crate::nbt::be2(11)[j]);
    }
    assert(crate::nbt::be2(n1) =~= crate::nbt::be2(11));
    crate::nbt::lemma_be2_inject(n1, 11);
    assert(rest[0].0@ =~= key_data_version()) by {
        assert(forall|j: int|
            0 <= j < 11 ==> rest[0].0@[j] == s3.subrange(off + 3, off + 14)[j] && s3[off
                + 3 + j] == s3.subrange(off, off + 19)[3 + j] && edv[3 + j]
                == key_data_version()[j]);
    }
    let m = rest[0].1->Int_0;
    assert(crate::nbt::payload(rest[0].1).len() == 4);
    assert forall|j: int| 0 <= j < 4 implies crate::nbt::be4(crate::nbt::u32_rep(m))[j]
        == crate::nbt::be4(crate::nbt::u32_rep(n))[j] by {
        assert(crate::nbt::payload(rest[0].1)[j] == s3.subrange(off + 14, off + 18)[j]);
        assert(s3[off + 14 + j] == s3.subrange(off, off + 19)[14 + j]);
        assert(edv[14 + j] == crate::nbt::be4(crate::nbt::u32_rep(n))[j]);
    }
    assert(crate::nbt::be4(crate::nbt::u32_rep(m)) =~= crate::nbt::be4(
        crate::nbt::u32_rep(n),
    ));
    crate::nbt::lemma_be4_inject(crate::nbt::u32_rep(m), crate::nbt::u32_rep(n));
    assert(m == n);
    let rr = rest.drop_first();
    assert(crate::nbt::entries_at(s3, off + 18, rr, p));
    if rr.len() > 0 {
        crate::nbt::lemma_entry_head(s3, off + 18, rr, p);
        crate::nbt::lemma_tag_range(rr[0].1);
        assert(s3[off + 18] == crate::nbt::tag_of(rr[0].1));
        assert(s3[off + 18] == s3.subrange(off, off + 19)[18]);
        assert((crate::nbt::entry_bytes(key_data_version(), Nbt::Int(n)) + seq![0u8])[18]
            == 0);
        assert(false);
    }
    assert(find_entry(rest, key_data_version()) == Some(rest[0].1));
}

/// Reading back a written chunk: any chunk faithfully read from the exact
/// bytes that `chunk_doc` serializes carries the requested coordinates,
/// the same format marker, and a `level` tree that corresponds entry for
/// entry to the one written — same names, same value tags, same value
/// payloads.
#[verifier::rlimit(100)]
#[verifier::spinoff_prover]
pub proof fn lemma_chunk_read_back(
    level: Vec<(Vec<u8>, Nbt)>,
    dv: Option<i32>,
    c: Chunk,
    x: isize,
    z: isize,
)
    requires
        chunk_level_wf(level),
        chunk_parsed_from(c, chunk_doc_bytes(level, dv), x, z),
    ensures
        c.x == x,
        c.z == z,
        c.data_version == dv,
        c.level@.len() == level@.len(),
        forall|k: int|
            0 <= k < level@.len() ==> (#[trigger] c.level@[k]).0@ == level@[k].0@
                && crate::nbt::tag_of(c.level@[k].1) == crate::nbt::tag_of(level@[k].1)
                && crate::nbt::payload(c.level@[k].1) == crate::nbt::payload(
                level@[k].1,
            ),
{
    let raw = chunk_doc_bytes(level, dv);
    let (name, t, end) = choose|name: Seq<u8>, t: Nbt, end: int|
        #![trigger crate::nbt::root_bytes(name, t), raw.subrange(0, end)]
        {
            &&& crate::nbt::root_at(raw, name, t, end)
            &&& find_entry(t->Compound_0@, key_level()) == Some(Nbt::Compound(c.level))
            &&& match find_entry(t->Compound_0@, key_data_version()) {
                Some(v) => v is Int && c.data_version == Some(v->Int_0),
                None => c.data_version is None,
            }
        };
    lemma_doc_head(level, dv, name, t, end);
    let te = t->Compound_0@;
    let cp = crate::nbt::payload(Nbt::Compound(level)).len() as int;
    let e1 = crate::nbt::entry_bytes(key_level(), Nbt::Compound(level));
    let edv = match dv {
        Some(n) => crate::nbt::entry_bytes(key_data_version(), Nbt::Int(n)),
        None => Seq::<u8>::empty(),
    };
    assert(raw == seq![10u8] + crate::nbt::be2(0) + e1 + edv + seq![0u8]);
    assert(e1.len() == 8 + cp);
    assert(te[0].1 == Nbt::Compound(c.level));
    let s = crate::nbt::payload(te[0].1);
    assert(crate::nbt::entries_bytes(c.level@) + seq![0u8] == s);
    assert(crate::nbt::entries_bytes(level@) + seq![0u8] == s);
    assert(s.subrange(0, s.len() as int) =~= s);
    assert(crate::nbt::wf(te[0].1));
    assert(crate::nbt::wf(Nbt::Compound(c.level)));
    assert(forall|k: int|
        0 <= k < c.level@.len() ==> (#[trigger] c.level@[k]).0@.len() < 0x10000);
    assert(forall|k: int| 0 <= k < c.level@.len() ==> crate::nbt::wf((#[trigger] c.level@[k]).1));
    assert(crate::nbt::wf(Nbt::Compound(level)));
    assert(forall|k: int|
        0 <= k < level@.len() ==> (#[trigger] level@[k]).0@.len() < 0x10000);
    assert(forall|k: int| 0 <= k < level@.len() ==> crate::nbt::wf((#[trigger] level@[k]).1));
    crate::nbt::lemma_entries_correspond(
        c.level@,
        level@,
        s,
        s.len() as int,
        s.len() as int,
    );
    let rest = te.drop_first();
    let s3 = raw.skip(3);
    assert(key_level() != key_data_version());
    assert(find_entry(te, key_data_version()) == find_entry(rest, key_data_version()));
    match dv {
        Some(n) => {
            assert(s3.subrange(8 + cp, 8 + cp + 19) =~= edv + seq![0u8]) by {
                assert(forall|j: int|
                    0 <= j < 19 ==> s3[8 + cp + j] == raw[11 + cp + j] && raw[11 + cp + j]
                        == (edv + seq![0u8])[j]);
            }
            lemma_doc_marker(rest, s3, 8 + cp, end - 3, n);
            assert(c.data_version == Some(n));
        },
        None => {
            assert(s3[8 + cp] == 0) by {
                assert(s3[8 + cp] == raw[11 + cp]);
                assert(raw[11 + cp] == (seq![10u8] + crate::nbt::be2(0) + e1 + edv + seq![
                    0u8,
                ])[11 + cp]);
            }
            if rest.len() > 0 {
                crate::nbt::lemma_entry_head(s3, 8 + cp, rest, end - 3);
                crate::nbt::lemma_tag_range(rest[0].1);
                assert(s3[8 + cp] == crate::nbt::tag_of(rest[0].1));
                assert(false);
            }
            assert(find_entry(rest, key_data_version()) is None);
            assert(c.data_version is None);
        },
    }
}

/// Index of the first entry under the given key.
fn find_first(entries: &Vec<(Vec<u8>, Nbt)>, key: &Vec<u8>) -> (r: Option<usize>)
    ensures
        match r {
            Some(i) => i < entries@.len() && entries@[i as int].0@ == key@ && find_entry(
                entries@,
                key@,
            ) == Some(entries@[i as int].1),
            None => find_entry(entries@, key@) is None,
        },
{
    let mut i: usize = 0;
    assert(entries@.skip(0) =~= entries@);
    while i < entries.len()
        invariant
            i <= entries@.len(),
            find_entry(entries@, key@) == find_entry(entries@.skip(i as int), key@),
        decreases entries@.len() - i,
    {
        if name_is(&entries[i].0, key) {
            assert(entries@.skip(i as int)[0] == entries@[i as int]);
            return Some(i);
        }
        assert(entries@.skip(i as int)[0] == entries@[i as int]);
        assert(entries@.skip(i as int).drop_first() =~= entries@.skip(i + 1));
        i += 1;
    }
    assert(entries@.skip(i as int).len() == 0);
    None
}

/// Reads one chunk document: parses the tree, takes the compound under the
/// `Level` entry as the chunk's generic tree, reads the format marker, and
/// stamps the requested coordinates onto the result. It fails exactly when
/// no readable chunk document begins the bytes.
pub fn chunk_from_bytes(raw: &Vec<u8>, x: isize, z: isize) -> (r: Result<Chunk, WorldError>)
    ensures
        match r {
            Ok(c) => chunk_parsed_from(c, raw@, x, z) && has_chunk_doc(raw@),
            Err(e) => e == WorldError::MalformedTree && !has_chunk_doc(raw@),
        },
{
    let parsed = crate::nbt::parse_root(raw);
    let (rname, root, end) = match parsed {
        Some(p) => p,
        None => {
            proof {
                assert forall|name: Seq<u8>, t: Nbt, e2: int|
                    !#[trigger] chunk_doc_at(raw@, name, t, e2) by {
                    assert(!crate::nbt::root_at(raw@, name, t, e2));
                }
            }
            return Err(WorldError::MalformedTree);
        },
    };
    let ghost groot = root;
    let ghost gname = rname@;
    let ghost gend = end as int;
    proof {
        assert(crate::nbt::root_at(raw@, gname, groot, gend));
    }
    let mut entries: Vec<(Vec<u8>, Nbt)> = match root {
        Nbt::Compound(entries) => entries,
        _ => {
            proof {
                assert(false);
            }
            return Err(WorldError::MalformedTree);
        },
    };
    let ghost er = groot->Compound_0@;
    let data_version: Option<i32> = match find_first(&entries, &k_data_version()) {
        Some(j) => match &entries[j].1 {
            Nbt::Int(n) => Some(*n),
            _ => {
                proof {
                    assert forall|name: Seq<u8>, t: Nbt, e2: int|
                        !#[trigger] chunk_doc_at(raw@, name, t, e2) by {
                        if chunk_doc_at(raw@, name, t, e2) {
                            lemma_root_correspond(raw@, gname, groot, gend, name, t, e2);
                            lemma_find_entry_correspond(
                                er,
                                t->Compound_0@,
                                key_data_version(),
                            );
                            assert(false);
                        }
                    }
                }
                return Err(WorldError::MalformedTree);
            },
        },
        None => None,
    };
    let i = match find_first(&entries, &k_level()) {
        Some(i) => i,
        None => {
            proof {
                assert forall|name: Seq<u8>, t: Nbt, e2: int|
                    !#[trigger] chunk_doc_at(raw@, name, t, e2) by {
                    if chunk_doc_at(raw@, name, t, e2) {
                        lemma_root_correspond(raw@, gname, groot, gend, name, t, e2);
                        lemma_find_entry_correspond(er, t->Compound_0@, key_level());
                        assert(false);
                    }
                }
            }
            return Err(WorldError::MalformedTree);
        },
    };
    let (_, level_val) = entries.remove(i);
    let level: Vec<(Vec<u8>, Nbt)> = match level_val {
        Nbt::Compound(level) => level,
        _ => {
            proof {
                assert forall|name: Seq<u8>, t: Nbt, e2: int|
                    !#[trigger] chunk_doc_at(raw@, name, t, e2) by {
                    if chunk_doc_at(raw@, name, t, e2) {
                        lemma_root_correspond(raw@, gname, groot, gend, name, t, e2);
                        lemma_find_entry_correspond(er, t->Compound_0@, key_level());
                        assert(false);
                    }
                }
            }
            return Err(WorldError::MalformedTree);
        },
    };
    let c = Chunk { level, data_version, x, z };
    proof {
        assert(crate::nbt::root_bytes(gname, groot) == raw@.subrange(0, gend));
        assert(find_entry(er, key_level()) == Some(Nbt::Compound(c.level)));
        assert(chunk_parsed_from(c, raw@, x, z));
        assert(chunk_doc_at(raw@, gname, groot, gend));
    }
    Ok(c)
}

/// Projecting the serialized tree of a well-formed section recovers
/// exactly that section.
pub proof fn lemma_section_round_trip(t: Nbt, sv: SectionV)
    requires
        is_section_tree(t, sv),
        section_v_wf(sv),
    ensures
        section_of_tree(t) == Some(sv),
{
    let es = t->Compound_0@;
    let s0 = default_section_v();
    let s1 = SectionV { y: (sv.y as i8) as u8, ..s0 };
    assert((sv.y as i8) as u8 == sv.y);
    let s2 = SectionV { block_light: sv.block_light, ..s1 };
    let s3 = SectionV { blocks: sv.blocks, ..s2 };
    let s4 = SectionV { data: sv.data, ..s3 };
    let s5 = SectionV { sky_light: sv.sky_light, ..s4 };
    assert(section_step(s0, es[0]) == Some(s1));
    assert(section_fold(s0, es) == section_fold(s1, es.drop_first()));
    assert(es.drop_first()[0] == es[1]);
    assert(section_step(s1, es[1]) == Some(s2));
    assert(section_fold(s1, es.drop_first()) == section_fold(s2, es.drop_first().drop_first()));
    assert(es.drop_first().drop_first()[0] == es[2]);
    assert(section_step(s2, es[2]) == Some(s3));
    let rest3 = es.drop_first().drop_first().drop_first();
    assert(section_fold(s2, es.drop_first().drop_first()) == section_fold(s3, rest3));
    assert(rest3[0] == es[3]);
    assert(section_step(s3, es[3]) == Some(s4));
    let rest4 = rest3.drop_first();
    assert(section_fold(s3, rest3) == section_fold(s4, rest4));
    assert(rest4[0] == es[4]);
    assert(section_step(s4, es[4]) == Some(s5));
    let rest5 = rest4.drop_first();
    assert(rest5.len() == 0);
    assert(section_fold(s4, rest4) == section_fold(s5, rest5));
    assert(section_fold(s5, rest5) == Some(s5));
    assert(s5 =~= sv);
}

/// Projecting a list of serialized well-formed sections, from any already
/// accumulated prefix, appends exactly those sections.
pub proof fn lemma_sections_round_trip(acc: Seq<SectionV>, items: Seq<Nbt>, svs: Seq<SectionV>)
    requires
        items.len() == svs.len(),
        forall|i: int| 0 <= i < items.len() ==> is_section_tree(#[trigger] items[i], svs[i]),
        forall|i: int| 0 <= i < svs.len() ==> section_v_wf(#[trigger] svs[i]),
    ensures
        sections_fold(acc, items) == Some(acc + svs),
    decreases items.len(),
{
    if items.len() == 0 {
        assert(acc + svs =~= acc);
    } else {
        lemma_section_round_trip(items[0], svs[0]);
        lemma_sections_round_trip(acc.push(svs[0]), items.drop_first(), svs.drop_first());
        assert(acc.push(svs[0]) + svs.drop_first() =~= acc + svs);
    }
}

/// Round trip of the tagged-value bridge: projecting the serialized tree
/// of a well-formed level recovers every field of that level exactly, with
/// no unmapped diagnostics.
pub proof fn lemma_bridge_round_trip(t: Nbt, lv: LevelV)
    requires
        level_v_wf(lv),
        is_level_tree(t, lv),
    ensures
        level_of_entries(t->Compound_0@) == Some((lv, Seq::<(Vec<u8>, Nbt)>::empty())),
{
    let es = t->Compound_0@;
    let l0 = default_level_v();
    let u: Seq<(Vec<u8>, Nbt)> = Seq::empty();
    let l1 = LevelV { sections: lv.sections, ..l0 };
    lemma_sections_round_trip(
        Seq::empty(),
        t->Compound_0@[0].1->List_0@,
        lv.sections,
    );
    assert(Seq::<SectionV>::empty() + lv.sections =~= lv.sections);
    assert(level_step(l0, u, es[0]) == Some((l1, u)));
    assert(level_fold(l0, u, es) == level_fold(l1, u, es.drop_first()));
    let l2 = LevelV { block_entities: lv.block_entities, ..l1 };
    let rest1 = es.drop_first();
    assert(rest1[0] == es[1]);
    assert(level_step(l1, u, es[1]) == Some((l2, u)));
    assert(level_fold(l1, u, rest1) == level_fold(l2, u, rest1.drop_first()));
    let l3 = LevelV { inhabited_time: lv.inhabited_time, ..l2 };
    let rest2 = rest1.drop_first();
    assert(rest2[0] == es[2]);
    assert(level_step(l2, u, es[2]) == Some((l3, u)));
    assert(level_fold(l2, u, rest2) == level_fold(l3, u, rest2.drop_first()));
    let l4 = LevelV { last_update: lv.last_update, ..l3 };
    let rest3 = rest2.drop_first();
    assert(rest3[0] == es[3]);
    assert(level_step(l3, u, es[3]) == Some((l4, u)));
    assert(level_fold(l3, u, rest3) == level_fold(l4, u, rest3.drop_first()));
    let l5 = LevelV { light_populated: lv.light_populated, ..l4 };
    let rest4 = rest3.drop_first();
    assert(rest4[0] == es[4]);
    assert(level_step(l4, u, es[4]) == Some((l5, u)));
    assert(level_fold(l4, u, rest4) == level_fold(l5, u, rest4.drop_first()));
    let l6 = LevelV { terrain_populated: lv.terrain_populated, ..l5 };
    let rest5 = rest4.drop_first();
    assert(rest5[0] == es[5]);
    assert(level_step(l5, u, es[5]) == Some((l6, u)));
    assert(level_fold(l5, u, rest5) == level_fold(l6, u, rest5.drop_first()));
    let l7 = LevelV { x: lv.x, ..l6 };
    let rest6 = rest5.drop_first();
    assert(rest6[0] == es[6]);
    assert(level_step(l6, u, es[6]) == Some((l7, u)));
    assert(level_fold(l6, u, rest6) == level_fold(l7, u, rest6.drop_first()));
    let l8 = LevelV { z: lv.z, ..l7 };
    let rest7 = rest6.drop_first();
    assert(rest7[0] == es[7]);
    assert(level_step(l7, u, es[7]) == Some((l8, u)));
    assert(level_fold(l7, u, rest7) == level_fold(l8, u, rest7.drop_first()));
    let l9 = LevelV { biomes: lv.biomes, ..l8 };
    let rest8 = rest7.drop_first();
    assert(rest8[0] == es[8]);
    assert(level_step(l8, u, es[8]) == Some((l9, u)));
    assert(level_fold(l8, u, rest8) == level_fold(l9, u, rest8.drop_first()));
    let l10 = LevelV { height_map: lv.height_map, ..l9 };
    let rest9 = rest8.drop_first();
    assert(rest9[0] == es[9]);
    assert(level_step(l9, u, es[9]) == Some((l10, u)));
    assert(level_fold(l9, u, rest9) == level_fold(l10, u, rest9.drop_first()));
    let rest10 = rest9.drop_first();
    assert(rest10.len() == 0);
    assert(level_fold(l10, u, rest10) == Some((l10, u)));
    assert(l10 =~= lv);
}

/// Every element of the list is a compound node.
fn check_all_compounds(items: &Vec<Nbt>) -> (r: bool)
    ensures
        r == all_compounds(items@),
{
    let mut i: usize = 0;
    while i < items.len()
        invariant
            i <= items@.len(),
            forall|j: int| 0 <= j < i ==> (#[trigger] items@[j]) is Compound,
        decreases items@.len() - i,
    {
        match &items[i] {
            Nbt::Compound(_) => {},
            _ => {
                return false;
            },
        }
        i += 1;
    }
    true
}

/// Projects one compound node into a `Section`, starting from the
/// defaults; fails on a non-compound node or a known key of the wrong
/// shape.
#[verifier::loop_isolation(false)]
pub fn section_from_tree(t: Nbt) -> (r: Result<Section, WorldError>)
    ensures
        match r {
            Ok(s) => section_of_tree(t) == Some(s@),
            Err(e) => section_of_tree(t) is None && e == WorldError::MalformedTree,
        },
{
    let mut entries: Vec<(Vec<u8>, Nbt)> = match t {
        Nbt::Compound(entries) => entries,
        _ => {
            return Err(WorldError::MalformedTree);
        },
    };
    let ghost all = entries@;
    let mut s = Section {
        y: 0,
        block_light: Vec::new(),
        blocks: Vec::new(),
        data: Vec::new(),
        sky_light: Vec::new(),
    };
    assert(s@ =~= default_section_v());
    while entries.len() > 0
        invariant
            section_fold(default_section_v(), all) == section_fold(s@, entries@),
        decreases entries@.len(),
    {
        let (name, v) = entries.remove(0);
        let ghost entry: (Vec<u8>, Nbt) = (name, v);
        let ghost s0 = s@;
        if name_is(&name, &k_y()) {
            assert(entry.0@ == key_y());
            match v {
                Nbt::Byte(b) => {
                    if b < 0 {
                        return Err(WorldError::MalformedTree);
                    }
                    s.y = b as u8;
                    assert(entry.1 == Nbt::Byte(b));
                    assert(section_step(s0, entry) == Some(s@));
                },
                _ => {
                    return Err(WorldError::MalformedTree);
                },
            }
        } else if name_is(&name, &k_block_light()) {
            match v {
                Nbt::ByteArray(a) => {
                    s.block_light = a;
                    assert(section_step(s0, entry) == Some(s@));
                },
                _ => {
                    return Err(WorldError::MalformedTree);
                },
            }
        } else if name_is(&name, &k_blocks()) {
            match v {
                Nbt::ByteArray(a) => {
                    s.blocks = a;
                    assert(section_step(s0, entry) == Some(s@));
                },
                _ => {
                    return Err(WorldError::MalformedTree);
                },
            }
        } else if name_is(&name, &k_data()) {
            match v {
                Nbt::ByteArray(a) => {
                    s.data = a;
                    assert(section_step(s0, entry) == Some(s@));
                },
                _ => {
                    return Err(WorldError::MalformedTree);
                },
            }
        } else if name_is(&name, &k_sky_light()) {
            match v {
                Nbt::ByteArray(a) => {
                    s.sky_light = a;
                    assert(section_step(s0, entry) == Some(s@));
                },
                _ => {
                    return Err(WorldError::MalformedTree);
                },
            }
        } else {
            assert(section_step(s0, entry) == Some(s@));
        }
        assert(section_step(s0, entry) == Some(s@));
    }
    Ok(s)
}

/// Projects the elements of a section list, left to right.
#[verifier::loop_isolation(false)]
fn sections_from_items(items: Vec<Nbt>) -> (r: Result<Vec<Section>, WorldError>)
    ensures
        match r {
            Ok(ss) => sections_fold(Seq::empty(), items@) == Some(sections_view(ss@)),
            Err(e) => sections_fold(Seq::empty(), items@) is None && e
                == WorldError::MalformedTree,
        },
{
    let ghost all = items@;
    let mut rest = items;
    let mut out: Vec<Section> = Vec::new();
    assert(sections_view(out@) =~= Seq::<SectionV>::empty());
    while rest.len() > 0
        invariant
            sections_fold(Seq::empty(), all) == sections_fold(sections_view(out@), rest@),
        decreases rest@.len(),
    {
        let item = rest.remove(0);
        let ghost acc0 = sections_view(out@);
        match section_from_tree(item) {
            Ok(s) => {
                out.push(s);
                assert(sections_view(out@) =~= acc0.push(s@));
            },
            Err(e) => {
                return Err(e);
            },
        }
    }
    Ok(out)
}

impl Section {
    /// Serializes this section as the tree that the wire form carries: a
    /// compound with the five fields in declaration order.
    pub fn to_tree(self) -> (r: Nbt)
        requires
            section_v_wf(self@),
        ensures
            is_section_tree(r, self@),
            crate::nbt::wf(r),
    {
        let ghost sv = self@;
        let mut es: Vec<(Vec<u8>, Nbt)> = Vec::new();
        es.push((k_y(), Nbt::Byte(self.y as i8)));
        es.push((k_block_light(), Nbt::ByteArray(self.block_light)));
        es.push((k_blocks(), Nbt::ByteArray(self.blocks)));
        es.push((k_data(), Nbt::ByteArray(self.data)));
        es.push((k_sky_light(), Nbt::ByteArray(self.sky_light)));
        let r = Nbt::Compound(es);
        assert(is_section_tree(r, sv));
        assert(crate::nbt::wf(r)) by {
            assert(forall|j: int|
                0 <= j < r->Compound_0@.len() ==> (#[trigger] r->Compound_0@[j]).0@.len()
                    < 0x10000);
            assert(forall|j: int|
                0 <= j < r->Compound_0@.len() ==> crate::nbt::wf(
                    (#[trigger] r->Compound_0@[j]).1,
                ));
        }
        r
    }
}

impl Default for Level {
    /// A level with no populated fields.
    fn default() -> (r: Level)
        ensures
            r@ == default_level_v(),
    {
        let r = Level {
            sections: Vec::new(),
            block_entities: Vec::new(),
            inhabited_time: 0,
            last_update: 0,
            light_populated: false,
            terrain_populated: false,
            x: 0,
            z: 0,
            biomes: Vec::new(),
            height_map: Vec::new(),
        };
        assert(r@ =~= default_level_v());
        r
    }
}

impl Level {
    /// Projects a compound's entries into a `Level` by key name, starting
    /// from the defaults. Either spelling of the block-entity list is
    /// accepted. A known key carrying a value of the wrong shape fails the
    /// projection; entries under unknown keys are collected and returned
    /// beside the level, never silently dropped.
    #[verifier::loop_isolation(false)]
    pub fn from_hashmap(entries: Vec<(Vec<u8>, Nbt)>) -> (r: Result<
        (Level, Vec<(Vec<u8>, Nbt)>),
        WorldError,
    >)
        ensures
            match r {
                Ok((l, u)) => level_of_entries(entries@) == Some((l@, u@)),
                Err(e) => level_of_entries(entries@) is None && e
                    == WorldError::MalformedTree,
            },
    {
        let ghost all = entries@;
        let mut rest = entries;
        let mut level = Level::default();
        let mut unmapped: Vec<(Vec<u8>, Nbt)> = Vec::new();
        assert(unmapped@ =~= Seq::<(Vec<u8>, Nbt)>::empty());
        while rest.len() > 0
            invariant
                level_of_entries(all) == level_fold(level@, unmapped@, rest@),
            decreases rest@.len(),
        {
            let (name, v) = rest.remove(0);
            let ghost entry: (Vec<u8>, Nbt) = (name, v);
            let ghost l0 = level@;
            let ghost u0 = unmapped@;
            if name_is(&name, &k_sections()) {
                match v {
                    Nbt::List(items) => {
                        match sections_from_items(items) {
                            Ok(ss) => {
                                level.sections = ss;
                            },
                            Err(e) => {
                                return Err(e);
                            },
                        }
                    },
                    _ => {
                        return Err(WorldError::MalformedTree);
                    },
                }
            } else if name_is(&name, &k_tile_entities())
                || name_is(&name, &k_block_entities()) {
                match v {
                    Nbt::List(items) => {
                        if !check_all_compounds(&items) {
                            return Err(WorldError::MalformedTree);
                        }
                        level.block_entities = items;
                    },
                    _ => {
                        return Err(WorldError::MalformedTree);
                    },
                }
            } else if name_is(&name, &k_inhabited_time()) {
                match v {
                    Nbt::Long(n) => {
                        level.inhabited_time = n;
                    },
                    _ => {
                        return Err(WorldError::MalformedTree);
                    },
                }
            } else if name_is(&name, &k_last_update()) {
                match v {
                    Nbt::Long(n) => {
                        level.last_update = n;
                    },
                    _ => {
                        return Err(WorldError::MalformedTree);
                    },
                }
            } else if name_is(&name, &k_light_populated()) {
                match v {
                    Nbt::Byte(b) => {
                        level.light_populated = b != 0;
                    },
                    _ => {
                        return Err(WorldError::MalformedTree);
                    },
                }
            } else if name_is(&name, &k_terrain_populated()) {
                match v {
                    Nbt::Byte(b) => {
                        level.terrain_populated = b != 0;
                    },
                    _ => {
                        return Err(WorldError::MalformedTree);
                    },
                }
            } else if name_is(&name, &k_x_pos()) {
                match v {
                    Nbt::Int(n) => {
                        level.x = n;
                    },
                    _ => {
                        return Err(WorldError::MalformedTree);
                    },
                }
            } else if name_is(&name, &k_z_pos()) {
                match v {
                    Nbt::Int(n) => {
                        level.z = n;
                    },
                    _ => {
                        return Err(WorldError::MalformedTree);
                    },
                }
            } else if name_is(&name, &k_biomes()) {
                match v {
                    Nbt::ByteArray(a) => {
                        level.biomes = a;
                    },
                    _ => {
                        return Err(WorldError::MalformedTree);
                    },
                }
            } else if name_is(&name, &k_height_map()) {
                match v {
                    Nbt::IntArray(a) => {
                        level.height_map = a;
                    },
                    _ => {
                        return Err(WorldError::MalformedTree);
                    },
                }
            } else {
                unmapped.push((name, v));
                assert(level_step(l0, u0, entry) == Some((level@, unmapped@)));
            }
        }
        Ok((level, unmapped))
    }

    /// Serializes this level as the tree that the wire form carries: a
    /// compound with the ten fields in declaration order.
    #[verifier::loop_isolation(false)]
    pub fn to_tree(self) -> (r: Nbt)
        requires
            level_v_wf(self@),
        ensures
            is_level_tree(r, self@),
            crate::nbt::wf(r),
            r is Compound,
    {
        let ghost lv = self@;
        let ghost sv_all = sections_view(self.sections@);
        let mut secs = self.sections;
        let mut items: Vec<Nbt> = Vec::new();
        assert(sections_view(secs@) =~= sv_all.skip(0));
        while secs.len() > 0
            invariant
                items@.len() + secs@.len() == sv_all.len(),
                sections_view(secs@) == sv_all.skip(items@.len() as int),
                forall|j: int|
                    0 <= j < items@.len() ==> is_section_tree(
                        #[trigger] items@[j],
                        sv_all[j],
                    ),
                forall|j: int| 0 <= j < items@.len() ==> crate::nbt::wf(#[trigger] items@[j]),
            decreases secs@.len(),
        {
            let ghost i = items@.len() as int;
            let ghost pre = secs@;
            let s = secs.remove(0);
            assert(pre[0] == s);
            assert(sections_view(pre)[0] == s@);
            assert(sections_view(pre)[0] == sv_all.skip(i)[0]);
            assert(s@ == sv_all[i]);
            let t = s.to_tree();
            items.push(t);
            assert(secs@ =~= pre.drop_first());
            assert forall|j: int| 0 <= j < secs@.len() implies sections_view(secs@)[j]
                == sv_all.skip(i + 1)[j] by {
                assert(sections_view(secs@)[j] == secs@[j]@);
                assert(secs@[j] == pre[j + 1]);
                assert(sections_view(pre)[j + 1] == pre[j + 1]@);
                assert(sections_view(pre)[j + 1] == sv_all.skip(i)[j + 1]);
            }
            assert(sections_view(secs@) =~= sv_all.skip(items@.len() as int));
        }
        let section_list = Nbt::List(items);
        assert(crate::nbt::wf(section_list)) by {
            assert(forall|j: int|
                0 <= j < section_list->List_0@.len() ==> crate::nbt::tag_of(
                    #[trigger] section_list->List_0@[j],
                ) == crate::nbt::elem_tag(section_list->List_0@));
        }
        let entity_list = Nbt::List(self.block_entities);
        assert(crate::nbt::wf(entity_list)) by {
            assert(forall|j: int|
                0 <= j < entity_list->List_0@.len() ==> crate::nbt::tag_of(
                    #[trigger] entity_list->List_0@[j],
                ) == crate::nbt::elem_tag(entity_list->List_0@));
        }
        let mut es: Vec<(Vec<u8>, Nbt)> = Vec::new();
        es.push((k_sections(), section_list));
        es.push((k_block_entities(), entity_list));
        es.push((k_inhabited_time(), Nbt::Long(self.inhabited_time)));
        es.push((k_last_update(), Nbt::Long(self.last_update)));
        es.push((
            k_light_populated(),
            Nbt::Byte(
                if self.light_populated {
                    1
                } else {
                    0
                },
            ),
        ));
        es.push((
            k_terrain_populated(),
            Nbt::Byte(
                if self.terrain_populated {
                    1
                } else {
                    0
                },
            ),
        ));
        es.push((k_x_pos(), Nbt::Int(self.x)));
        es.push((k_z_pos(), Nbt::Int(self.z)));
        es.push((k_biomes(), Nbt::ByteArray(self.biomes)));
        es.push((k_height_map(), Nbt::IntArray(self.height_map)));
        let r = Nbt::Compound(es);
        assert(is_level_tree(r, lv));
        assert(crate::nbt::wf(r)) by {
            assert(forall|j: int|
                0 <= j < r->Compound_0@.len() ==> (#[trigger] r->Compound_0@[j]).0@.len()
                    < 0x10000);
            assert(forall|j: int|
                0 <= j < r->Compound_0@.len() ==> crate::nbt::wf(
                    (#[trigger] r->Compound_0@[j]).1,
                ));
        }
        r
    }

    /// Projects a tree node into a `Level`: the node must be a compound.
    pub fn from_value(value: Nbt) -> (r: Result<(Level, Vec<(Vec<u8>, Nbt)>), WorldError>)
        ensures
            match r {
                Ok((l, u)) => value is Compound && level_of_entries(value->Compound_0@)
                    == Some((l@, u@)),
                Err(e) => e == WorldError::MalformedTree && (value is Compound
                    ==> level_of_entries(value->Compound_0@) is None),
            },
    {
        match value {
            Nbt::Compound(entries) => Level::from_hashmap(entries),
            _ => Err(WorldError::MalformedTree),
        }
    }
}

} // verus!
