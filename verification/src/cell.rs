//! One tape slot: a byte-wide or Unicode-wide value under a fixed tag,
//! with boundary moves that either wrap or fail.

use vstd::prelude::*;

use crate::arguments::{has_feature, Feature};
use crate::error::{is_error, ErrV, InterpreterError, InterpreterErrorKind};
use vstd::arithmetic::div_mod::{
    lemma_fundamental_div_mod, lemma_fundamental_div_mod_converse_mod, lemma_mod_bound,
    lemma_small_mod,
};

verus! {

/// Whether `v` is a valid Unicode scalar value.
pub open spec fn is_scalar(v: int) -> bool {
    (0 <= v < 0xD800) || (0xE000 <= v <= 0x10FFFF)
}

/// Relies on `char::from_u32` of core: it returns the character with code
/// point `v` exactly when `v` is a valid Unicode scalar value, and `None`
/// otherwise.
pub assume_specification[ char::from_u32 ](v: u32) -> (r: Option<char>)
    ensures
        r is Some <==> is_scalar(v as int),
        r is Some ==> r->0 as int == v as int,
;

/// A single cell of the tape. The tag is fixed when the tape is built and
/// never changes afterwards.
#[derive(Clone, Copy, Debug, PartialEq, Eq, Structural)]
pub enum Cell {
    /// A byte-ranged value, 0 to 255.
    Byte(u8),
    /// A value in the Unicode scalar range, 0 to 1114111.
    Utf8(u32),
}

impl Cell {
    /// Whether this cell carries the wide tag.
    pub open spec fn is_wide(self) -> bool {
        self is Utf8
    }

    /// The value held, widened to an integer.
    pub open spec fn val(self) -> int {
        match self {
            Cell::Byte(v) => v as int,
            Cell::Utf8(v) => v as int,
        }
    }

    /// Validity: the value fits the tag. Every cell the interpreter
    /// builds or mutates keeps this.
    pub open spec fn inv(self) -> bool {
        self.val() <= self.max_spec()
    }

    /// The largest value the tag of this cell can hold.
    pub open spec fn max_spec(self) -> int {
        match self {
            Cell::Byte(_) => 255,
            Cell::Utf8(_) => 0x10FFFF,
        }
    }

    /// This cell with value `v` under the same tag (meaningful for `v` in
    /// range).
    pub open spec fn with_val(self, v: int) -> Cell {
        match self {
            Cell::Byte(_) => Cell::Byte(v as u8),
            Cell::Utf8(_) => Cell::Utf8(v as u32),
        }
    }

    /// This cell after one wrapping increment.
    pub open spec fn inc_spec(self) -> Cell {
        if self.val() == self.max_spec() {
            self.with_val(0)
        } else {
            self.with_val(self.val() + 1)
        }
    }

    /// This cell after one wrapping decrement.
    pub open spec fn dec_spec(self) -> Cell {
        if self.val() == 0 {
            self.with_val(self.max_spec())
        } else {
            self.with_val(self.val() - 1)
        }
    }

    /// This cell holding the code point of `ch` under the same tag, the
    /// byte tag keeping only the low eight bits.
    pub open spec fn set_spec(self, ch: char) -> Cell {
        match self {
            Cell::Byte(_) => Cell::Byte((((ch as u32) % 256) as u8)),
            Cell::Utf8(_) => Cell::Utf8(ch as u32),
        }
    }

    /// Stores the code point of `ch` into this cell; the byte tag keeps
    /// only the low eight bits.
    pub fn set_value(&mut self, ch: char)
        ensures
            *final(self) == old(self).set_spec(ch),
            final(self).inv(),
    {
        proof {
            assert(0 <= ch as u32 <= 0x10FFFF);
        }
        match self {
            Cell::Byte(p) => {
                *p = ((ch as u32) % 256) as u8;
            },
            Cell::Utf8(p) => {
                *p = ch as u32;
            },
        }
    }

    /// A zero-valued cell, wide exactly when `future` holds `AllowUtf8`.
    pub fn default_cell(future: &Vec<Feature>) -> (r: Self)
        ensures
            r == if future@.contains(Feature::AllowUtf8) {
                Cell::Utf8(0)
            } else {
                Cell::Byte(0)
            },
    {
        if has_feature(future, Feature::AllowUtf8) {
            Cell::Utf8(0)
        } else {
            Cell::Byte(0)
        }
    }

    /// A cell holding `value`, wide exactly when `future` holds
    /// `AllowUtf8`; the byte tag keeps only the low eight bits.
    pub fn new(value: u32, future: &Vec<Feature>) -> (r: Self)
        ensures
            r == if future@.contains(Feature::AllowUtf8) {
                Cell::Utf8(value)
            } else {
                Cell::Byte((value % 256) as u8)
            },
    {
        if has_feature(future, Feature::AllowUtf8) {
            Cell::Utf8(value)
        } else {
            Cell::Byte((value % 256) as u8)
        }
    }

    /// The value truncated to the low eight bits.
    pub fn get_value(&self) -> (r: u8)
        ensures
            self is Byte ==> r as int == self.val(),
            self is Utf8 ==> r as int == self.val() % 256,
    {
        match self {
            Cell::Byte(value) => *value,
            Cell::Utf8(value) => (*value % 256) as u8,
        }
    }

    /// The value widened to the full range.
    pub fn get_value_utf8(&self) -> (r: u32)
        ensures
            r as int == self.val(),
    {
        match self {
            Cell::Byte(value) => *value as u32,
            Cell::Utf8(value) => *value,
        }
    }

    /// Adds one to the value. At the tag's maximum the move fails with
    /// `ValueOutOfBounds` when `no_reverse_value` is set, and wraps to zero
    /// otherwise; the cell is left unchanged on failure.
    pub fn increment(&mut self, no_reverse_value: bool) -> (r: Result<(), InterpreterError>)
        requires
            old(self).inv(),
        ensures
            final(self).inv(),
            old(self).val() == old(self).max_spec() && no_reverse_value ==> r is Err
                && is_error(r->Err_0, ErrV::ValueOutOfBounds) && *final(self) == *old(self),
            !(old(self).val() == old(self).max_spec() && no_reverse_value) ==> r is Ok
                && *final(self) == old(self).inc_spec(),
    {
        if self.get_value_utf8() == self.max_value() && no_reverse_value {
            return Err(InterpreterErrorKind::ValueOutOfBounds.to_error());
        }
        match self {
            Cell::Byte(value) => {
                if *value == 255 {
                    *value = 0;
                } else {
                    *value = *value + 1;
                }
            },
            Cell::Utf8(value) => {
                if *value == 1114111 {
                    *value = 0;
                } else {
                    *value = *value + 1;
                }
            },
        }
        Ok(())
    }

    /// Takes one from the value. At zero the move fails with
    /// `ValueOutOfBounds` when `no_reverse_value` is set, and wraps to the
    /// tag's maximum otherwise; the cell is left unchanged on failure.
    pub fn decrement(&mut self, no_reverse_value: bool) -> (r: Result<(), InterpreterError>)
        requires
            old(self).inv(),
        ensures
            final(self).inv(),
            old(self).val() == 0 && no_reverse_value ==> r is Err
                && is_error(r->Err_0, ErrV::ValueOutOfBounds) && *final(self) == *old(self),
            !(old(self).val() == 0 && no_reverse_value) ==> r is Ok
                && *final(self) == old(self).dec_spec(),
    {
        if self.get_value_utf8() == 0 && no_reverse_value {
            return Err(InterpreterErrorKind::ValueOutOfBounds.to_error());
        }
        match self {
            Cell::Byte(value) => {
                if *value == 0 {
                    *value = 255;
                } else {
                    *value = *value - 1;
                }
            },
            Cell::Utf8(value) => {
                if *value == 0 {
                    *value = 1114111;
                } else {
                    *value = *value - 1;
                }
            },
        }
        Ok(())
    }

    /// The largest value this cell's tag can hold.
    pub fn max_value(&self) -> (r: u32)
        ensures
            r as int == self.max_spec(),
    {
        match self {
            Cell::Byte(_) => 255,
            Cell::Utf8(_) => 1114111,
        }
    }

    /// The character whose code point is the value. Fails with
    /// `InvalidUtf8` when the value is no valid Unicode scalar, which only
    /// a wide cell can reach.
    pub fn to_char(&self) -> (r: Result<char, InterpreterError>)
        ensures
            r is Ok <==> is_scalar(self.val()),
            r is Ok ==> r->Ok_0 as int == self.val(),
            r is Err ==> is_error(r->Err_0, ErrV::InvalidUtf8),
    {
        let c = match self {
            Cell::Byte(value) => char::from_u32(*value as u32),
            Cell::Utf8(value) => char::from_u32(*value),
        };
        if let Some(c) = c {
            Ok(c)
        } else {
            Err(InterpreterErrorKind::InvalidUtf8.to_error())
        }
    }
}

/// `c` after `n` wrapping increments.
pub open spec fn inc_n(c: Cell, n: nat) -> Cell
    decreases n,
{
    if n == 0 {
        c
    } else {
        inc_n(c, (n - 1) as nat).inc_spec()
    }
}

proof fn lemma_inc_n_mod(c: Cell, n: nat)
    requires
        c.inv(),
    ensures
        inc_n(c, n).inv(),
        inc_n(c, n).is_wide() == c.is_wide(),
        inc_n(c, n).val() == (c.val() + n) % (c.max_spec() + 1),
    decreases n,
{
    let m = c.max_spec() + 1;
    let v = c.val();
    if n == 0 {
        lemma_small_mod(v as nat, m as nat);
    } else {
        lemma_inc_n_mod(c, (n - 1) as nat);
        let p = inc_n(c, (n - 1) as nat).val();
        lemma_fundamental_div_mod(v + n - 1, m);
        let q = (v + n - 1) / m;
        assert(v + n - 1 == q * m + p) by {
            assert(m * q == q * m) by (nonlinear_arith);
        };
        assert(0 <= p < m) by {
            lemma_mod_bound(v + n - 1, m);
        };
        if p == m - 1 {
            assert(v + n == (q + 1) * m + 0) by (nonlinear_arith)
                requires v + n - 1 == q * m + p && p == m - 1;
            lemma_fundamental_div_mod_converse_mod(v + n, m, q + 1, 0);
        } else {
            lemma_fundamental_div_mod_converse_mod(v + n, m, q, p + 1);
        }
    }
}

/// The wrapping increment is cyclic: as many increments as the tag has
/// values lead back to the starting cell — 256 of them for a byte cell,
/// 1114112 for a wide cell.
pub proof fn lemma_increment_cycle(c: Cell)
    requires
        c.inv(),
    ensures
        c is Byte ==> inc_n(c, 256) == c,
        c is Utf8 ==> inc_n(c, 1114112) == c,
{
    if c is Byte {
        lemma_inc_n_mod(c, 256);
        lemma_fundamental_div_mod_converse_mod(c.val() + 256, 256, 1, c.val());
        assert(inc_n(c, 256) == c);
    } else {
        lemma_inc_n_mod(c, 1114112);
        lemma_fundamental_div_mod_converse_mod(c.val() + 1114112, 1114112, 1, c.val());
        assert(inc_n(c, 1114112) == c);
    }
}

} // verus!
