//! Component types used by the examples and benchmarks.
use vstd::prelude::*;

verus! {

#[derive(Clone, Copy, Debug, PartialEq, Eq, Structural, Default)]
pub struct Age0(pub usize);

#[derive(Clone, Copy, Debug, PartialEq, Eq, Structural, Default)]
pub struct Age1(pub usize);

#[derive(Clone, Copy, Debug, PartialEq, Eq, Structural, Default)]
pub struct Age2(pub usize);

#[derive(Clone, Copy, Debug, PartialEq, Eq, Structural, Default)]
pub struct Age3(pub usize);

pub struct Age4(pub usize);

pub struct Age5(pub [usize; 16]);

pub struct Age6(pub usize);

pub struct Age7(pub usize);

pub struct Age8(pub usize);

#[derive(Debug, Default)]
pub struct Age9(pub usize);

#[derive(Debug, Default)]
pub struct Age10(pub usize);

pub struct Age11(pub usize);

pub struct Age12(pub usize);

pub struct Age13(pub usize);

pub struct Age14(pub usize);

pub struct Age15(pub usize);

pub struct Age16(pub usize);

pub struct Age17(pub usize);

pub struct Age18(pub usize);

pub struct Age19(pub usize);

pub struct Age20(pub usize);

#[derive(Debug)]
pub struct Age21(pub Vec<u64>);

} // verus!
