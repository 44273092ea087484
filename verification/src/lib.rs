//! Building blocks of a font compiler, with machine-checked contracts.
//!
//! The heart of the crate is the builder of a colour table's layer list:
//! [`layer_list`] takes groups of paints and packs them into one shared list,
//! [`reuse`] finds runs that were written before, [`expansion`] says what a
//! paint stands for, and [`theorems`] states what holds of the builder
//! whatever it is given. Around it stand smaller pieces of other tables and
//! sources: [`os2`], [`lang_systems`], [`glyph_set`], [`smart_components`],
//! [`source`] and [`tag`].
//!
//! Every function is verified against its contract with Verus. What is taken
//! on trust is named where it stands: the reading of a metrics table, a sort
//! and a set union of the standard library.

pub mod expansion;
pub mod glyph_set;
pub mod lang_systems;
pub mod layer_list;
pub mod os2;
pub mod paint;
pub mod ranges;
pub mod reuse;
pub mod smart_components;
pub mod source;
pub mod tag;
pub mod theorems;
