//! Small text-processing, data-structure and warehouse-management programs,
//! written as a verified library: each operation states its behaviour in
//! its contract and Verus proves the code against it.

pub mod text;
pub mod array_mutation;
pub mod book_shelf;
pub mod calculator;
pub mod catalog;
pub mod guessing;
pub mod index;
pub mod sorting;
pub mod stack;
pub mod string_edit;
pub mod supermarket;
pub mod warehouse;

use vstd::prelude::*;

verus! {

} // verus!
