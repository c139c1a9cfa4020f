//! The grid configuration: the four numeric text fields of the session
//! parsed into a validated set of positive tile-grid parameters, with an
//! error taxonomy that names the first field that fails and why.
use crate::digits::{
    all_dec_digits, chars_val, digit_of_char, is_dec_digit, lemma_chars_val_concat,
    lemma_chars_val_ge_acc, lemma_chars_val_snoc,
};
use crate::{StoreModel, TilesetInformation};
use vstd::prelude::*;

verus! {

/// Names one of the four grid fields, for error reporting.
#[derive(Clone, Copy, Debug, PartialEq, Eq, Structural)]
pub enum ConfigField {
    Rows,
    Columns,
    WidthPx,
    HeightPx,
}

/// Why a grid field failed to parse: the text is not a plain decimal
/// number that fits the configuration type, or it is the number zero.
#[derive(Clone, Copy, Debug, PartialEq, Eq, Structural)]
pub enum ConfigParseError {
    NotANumber(ConfigField),
    NonPositive(ConfigField),
}

/// A fully specified grid: row and column counts and the pixel size of
/// one tile, all positive.
#[derive(Clone, Copy, Debug, PartialEq, Eq, Structural)]
pub struct TilesetConfiguration {
    pub rows: i32,
    pub columns: i32,
    pub tile_width_px: i32,
    pub tile_height_px: i32,
}

impl TilesetConfiguration {
    /// All four parameters are positive; every configuration that
    /// `parsed` returns satisfies this.
    pub open spec fn wf(&self) -> bool {
        self.rows > 0 && self.columns > 0 && self.tile_width_px > 0 && self.tile_height_px > 0
    }
}

/// Numeric reading of a field's text: defined exactly when the text is
/// non-empty and consists of decimal digits only.
pub open spec fn field_num(s: Seq<char>) -> Option<nat> {
    if s.len() > 0 && all_dec_digits(s) {
        Option::Some(chars_val(s, 0))
    } else {
        Option::None
    }
}

/// Outcome of parsing one grid field: `NotANumber` when the text is not
/// a plain decimal number representable as an `i32`, `NonPositive` when
/// it reads as zero, and the positive value otherwise.
pub open spec fn field_outcome(s: Seq<char>, f: ConfigField) -> Result<i32, ConfigParseError> {
    match field_num(s) {
        Option::Some(n) => if n > i32::MAX {
            Result::Err(ConfigParseError::NotANumber(f))
        } else if n == 0 {
            Result::Err(ConfigParseError::NonPositive(f))
        } else {
            Result::Ok(n as i32)
        },
        Option::None => Result::Err(ConfigParseError::NotANumber(f)),
    }
}

/// Outcome of parsing the whole configuration, field by field in the
/// fixed order rows, columns, width, height; the first failure wins.
pub open spec fn spec_parsed(m: StoreModel) -> Result<TilesetConfiguration, ConfigParseError> {
    match field_outcome(m.rows, ConfigField::Rows) {
        Result::Err(e) => Result::Err(e),
        Result::Ok(rows) => match field_outcome(m.columns, ConfigField::Columns) {
            Result::Err(e) => Result::Err(e),
            Result::Ok(columns) => match field_outcome(m.width_px, ConfigField::WidthPx) {
                Result::Err(e) => Result::Err(e),
                Result::Ok(tile_width_px) => match field_outcome(
                    m.height_px,
                    ConfigField::HeightPx,
                ) {
                    Result::Err(e) => Result::Err(e),
                    Result::Ok(tile_height_px) => Result::Ok(
                        TilesetConfiguration { rows, columns, tile_width_px, tile_height_px },
                    ),
                },
            },
        },
    }
}

/// Parses one grid field: a non-empty, all-digit decimal that fits an
/// `i32` and is not zero.
fn parse_grid_field(s: &str, f: ConfigField) -> (r: Result<i32, ConfigParseError>)
    ensures
        r == field_outcome(s@, f),
{
    let n = s.unicode_len();
    if n == 0 {
        return Result::Err(ConfigParseError::NotANumber(f));
    }
    let mut acc: u64 = 0;
    let mut i: usize = 0;
    while i < n
        invariant
            0 <= i <= n,
            n == s@.len(),
            all_dec_digits(s@.take(i as int)),
            acc == chars_val(s@.take(i as int), 0),
            acc <= i32::MAX,
        decreases n - i,
    {
        let c = s.get_char(i);
        proof {
            assert(s@.take(i as int + 1) =~= s@.take(i as int).push(s@[i as int]));
            lemma_chars_val_snoc(s@.take(i as int), s@[i as int], 0);
        }
        match digit_of_char(c) {
            Option::None => {
                proof {
                    assert(!is_dec_digit(s@[i as int]));
                    assert(!all_dec_digits(s@));
                }
                return Result::Err(ConfigParseError::NotANumber(f));
            },
            Option::Some(d) => {
                acc = acc * 10 + d as u64;
                if acc > i32::MAX as u64 {
                    proof {
                        if all_dec_digits(s@) {
                            assert(s@ =~= s@.take(i as int + 1) + s@.skip(i as int + 1));
                            lemma_chars_val_concat(s@.take(i as int + 1), s@.skip(i as int + 1), 0);
                            lemma_chars_val_ge_acc(s@.skip(i as int + 1), acc as nat);
                        }
                    }
                    return Result::Err(ConfigParseError::NotANumber(f));
                }
            },
        }
        i = i + 1;
    }
    proof {
        assert(s@.take(n as int) =~= s@);
    }
    if acc == 0 {
        Result::Err(ConfigParseError::NonPositive(f))
    } else {
        Result::Ok(acc as i32)
    }
}

impl TilesetInformation {
    /// Parses all four grid fields in order and returns the validated
    /// configuration, or the first field's error.
    pub fn parsed(&self) -> (r: Result<TilesetConfiguration, ConfigParseError>)
        ensures
            r == spec_parsed(self@),
            r matches Ok(cfg) ==> cfg.wf(),
    {
        let rows = match parse_grid_field(self.rows.as_str(), ConfigField::Rows) {
            Result::Ok(v) => v,
            Result::Err(e) => {
                return Result::Err(e);
            },
        };
        let columns = match parse_grid_field(self.columns.as_str(), ConfigField::Columns) {
            Result::Ok(v) => v,
            Result::Err(e) => {
                return Result::Err(e);
            },
        };
        let tile_width_px = match parse_grid_field(self.width_px.as_str(), ConfigField::WidthPx) {
            Result::Ok(v) => v,
            Result::Err(e) => {
                return Result::Err(e);
            },
        };
        let tile_height_px = match parse_grid_field(
            self.height_px.as_str(),
            ConfigField::HeightPx,
        ) {
            Result::Ok(v) => v,
            Result::Err(e) => {
                return Result::Err(e);
            },
        };
        Result::Ok(TilesetConfiguration { rows, columns, tile_width_px, tile_height_px })
    }

    /// True exactly when all four grid fields are non-empty and parse as
    /// positive numbers, that is, when `parsed` succeeds.
    pub fn is_complete(&self) -> (r: bool)
        ensures
            r == (spec_parsed(self@) matches Ok(_)),
    {
        match self.parsed() {
            Result::Ok(_) => true,
            Result::Err(_) => false,
        }
    }
}

} // verus!
