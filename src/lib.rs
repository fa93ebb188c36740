//! Transport-independent protocol for HD44780-family character LCD modules.
//!
//! A backend supplies the two primitives that put one command byte or one
//! data byte on its bus; the [`screen::Screen`] trait builds batched sends,
//! clearing and single-line text output on top of them.
pub mod hd44780;
pub mod screen;
