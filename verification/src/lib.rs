//! Core model of a tileset tagging session.
//!
//! A tileset is a single image subdivided into a uniform grid of equally
//! sized tiles.  This crate holds the verified logic of a small tagging
//! tool: converting pointer positions to grid cells, validating the grid
//! configuration that a user types into text fields, keeping the ordered
//! list of named tile records, and encoding the whole session to a
//! deterministic text form that decodes back to the same state.
pub mod codec;
pub mod config;
pub mod digits;
pub mod geometry;

pub use codec::deserialize;
pub use config::{ConfigField, ConfigParseError, TilesetConfiguration};
pub use geometry::{
    cell_from_point, cell_rect, horizontal_grid_lines, is_in_bounds, select_cell,
    vertical_grid_lines, CellRect, GridLine,
};

use vstd::prelude::*;

verus! {

/// One named tag attached to one grid cell.  `x` is the column index and
/// `y` the row index of the cell; both are non-negative for every record
/// that enters the store through an in-bounds selection.
#[derive(Debug, Clone)]
pub struct TileMetadata {
    pub name: String,
    pub x: i32,
    pub y: i32,
}

/// Mathematical model of a [`TileMetadata`]: the name as a character
/// sequence and the cell coordinates as unbounded integers.
pub ghost struct TileModel {
    pub name: Seq<char>,
    pub x: int,
    pub y: int,
}

impl View for TileMetadata {
    type V = TileModel;

    open spec fn view(&self) -> TileModel {
        TileModel { name: self.name@, x: self.x as int, y: self.y as int }
    }
}

impl TileModel {
    /// A record is valid when both cell coordinates are non-negative and
    /// representable; records created from an in-bounds selection always
    /// satisfy this.
    pub open spec fn wf(self) -> bool {
        0 <= self.x <= i32::MAX && 0 <= self.y <= i32::MAX
    }
}

impl TileMetadata {
    /// Validity of the executable record: both coordinates non-negative.
    pub open spec fn wf(&self) -> bool {
        self@.wf()
    }
}

/// The whole editing session as the user sees it: the four grid fields
/// exactly as typed (free-form text until parsed), the ordered list of
/// tile records, and the source image (path plus raw bytes).
pub struct TilesetInformation {
    pub rows: String,
    pub columns: String,
    pub width_px: String,
    pub height_px: String,
    pub tiles: Vec<TileMetadata>,
    pub image_path: String,
    pub image_raw: Vec<u8>,
}

/// Mathematical model of a [`TilesetInformation`].
pub ghost struct StoreModel {
    pub rows: Seq<char>,
    pub columns: Seq<char>,
    pub width_px: Seq<char>,
    pub height_px: Seq<char>,
    pub tiles: Seq<TileModel>,
    pub image_path: Seq<char>,
    pub image_raw: Seq<u8>,
}

impl View for TilesetInformation {
    type V = StoreModel;

    open spec fn view(&self) -> StoreModel {
        StoreModel {
            rows: self.rows@,
            columns: self.columns@,
            width_px: self.width_px@,
            height_px: self.height_px@,
            tiles: Seq::new(self.tiles@.len(), |i: int| self.tiles@[i]@),
            image_path: self.image_path@,
            image_raw: self.image_raw@,
        }
    }
}

impl StoreModel {
    /// Every record in the store is a valid record.
    pub open spec fn wf(self) -> bool {
        forall|i: int| 0 <= i < self.tiles.len() ==> (#[trigger] self.tiles[i]).wf()
    }
}

impl TilesetInformation {
    /// Validity of the executable store: every record has non-negative
    /// cell coordinates.
    pub open spec fn wf(&self) -> bool {
        self@.wf()
    }

    /// Appends one record at the end of the ordered record list, keeping
    /// every other part of the session unchanged.  Appending is
    /// unconditional: tagging the same cell twice keeps both records.
    pub fn append(&mut self, record: TileMetadata)
        ensures
            final(self).tiles@ == old(self).tiles@.push(record),
            final(self)@.tiles == old(self)@.tiles.push(record@),
            final(self).rows == old(self).rows,
            final(self).columns == old(self).columns,
            final(self).width_px == old(self).width_px,
            final(self).height_px == old(self).height_px,
            final(self).image_path == old(self).image_path,
            final(self).image_raw == old(self).image_raw,
            old(self).wf() && record.wf() ==> final(self).wf(),
    {
        self.tiles.push(record);
        proof {
            assert(self@.tiles =~= old(self)@.tiles.push(record@));
        }
    }

    /// Read-only view of the record list, in insertion order.
    pub fn all(&self) -> (r: &Vec<TileMetadata>)
        ensures
            r == &self.tiles,
    {
        &self.tiles
    }
}

impl Default for TilesetInformation {
    /// The fresh session: every text field empty, no records, no image.
    fn default() -> (r: Self)
        ensures
            r.rows@ == Seq::<char>::empty(),
            r.columns@ == Seq::<char>::empty(),
            r.width_px@ == Seq::<char>::empty(),
            r.height_px@ == Seq::<char>::empty(),
            r.tiles@ == Seq::<TileMetadata>::empty(),
            r.image_path@ == Seq::<char>::empty(),
            r.image_raw@ == Seq::<u8>::empty(),
            r.wf(),
    {
        let r = TilesetInformation {
            rows: String::new(),
            columns: String::new(),
            width_px: String::new(),
            height_px: String::new(),
            tiles: Vec::new(),
            image_path: String::new(),
            image_raw: Vec::new(),
        };
        proof {
            assert(r.tiles@ =~= Seq::<TileMetadata>::empty());
            assert(r.image_raw@ =~= Seq::<u8>::empty());
        }
        r
    }
}

impl PartialEq for TileMetadata {
    /// Two records are equal when name and both coordinates agree.
    fn eq(&self, other: &Self) -> (r: bool) {
        let names_equal = self.name == other.name;
        names_equal && self.x == other.x && self.y == other.y
    }
}

impl vstd::std_specs::cmp::PartialEqSpecImpl for TileMetadata {
    open spec fn obeys_eq_spec() -> bool {
        true
    }

    open spec fn eq_spec(&self, other: &Self) -> bool {
        self@ == other@
    }
}

} // verus!
