//! What identifies a node.

use crate::collections::ordered_key::OrderedKey;
use crate::text::{decimal, decimal_text};
use vstd::prelude::*;

verus! {

/// A node identifier: a totally ordered key that can be printed and has a
/// default value.
pub trait NodeIndex: OrderedKey + core::fmt::Debug + Clone + Eq + Ord + core::hash::Hash + Default {
    /// The text the index is printed as.
    spec fn caption(v: Self::V) -> Seq<char>;

    /// The default index.
    spec fn default_key() -> Self::V;

    fn to_text(&self) -> (s: String)
        ensures
            s@ == Self::caption(self@),
    ;

    fn default_index() -> (r: Self)
        ensures
            r@ == Self::default_key(),
    ;
}

impl NodeIndex for usize {
    open spec fn caption(v: usize) -> Seq<char> {
        decimal(v as nat)
    }

    open spec fn default_key() -> usize {
        0
    }

    fn to_text(&self) -> (s: String) {
        decimal_text(*self as u64)
    }

    fn default_index() -> (r: Self) {
        0
    }
}

impl NodeIndex for u64 {
    open spec fn caption(v: u64) -> Seq<char> {
        decimal(v as nat)
    }

    open spec fn default_key() -> u64 {
        0
    }

    fn to_text(&self) -> (s: String) {
        decimal_text(*self)
    }

    fn default_index() -> (r: Self) {
        0
    }
}

impl NodeIndex for String {
    open spec fn caption(v: Seq<char>) -> Seq<char> {
        v
    }

    open spec fn default_key() -> Seq<char> {
        Seq::empty()
    }

    fn to_text(&self) -> (s: String) {
        self.clone()
    }

    fn default_index() -> (r: Self) {
        String::new()
    }
}

} // verus!
