//! A small virtual machine for programs encoded as flat sequences of signed
//! 64-bit integers, together with the collection of solvers built on top of
//! it.  The machine (`intcode`) has a fetch-decode-execute loop, three operand
//! addressing modes, an auto-growing linear memory and a suspend/resume
//! execution model; every instruction's effect is given by a specification
//! level transition function, and the executable interpreter is proved to
//! follow it exactly.

pub mod eight;
pub mod eleven;
pub mod fifteen;
pub mod five;
pub mod four;
pub mod fourteen;
pub mod intcode;
pub mod nine;
pub mod one;
pub mod seven;
pub mod six;
pub mod sixteen;
pub mod ten;
pub mod text;
pub mod thirteen;
pub mod three;
pub mod twelve;
pub mod two;
