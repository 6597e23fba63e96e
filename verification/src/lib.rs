//! A verified decode-and-aggregate core: untyped input values are
//! classified into text and count elements, and a classified request is
//! folded into its two totals.

pub mod data;
