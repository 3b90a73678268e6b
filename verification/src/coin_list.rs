//! The list of levers that have coins waiting at them, kept in a `SmallVec`.
use vstd::prelude::*;
use smallvec::SmallVec;

verus! {

/// A list of lever positions (row, column).  Verus cannot declare
/// `SmallVec` itself, whose parameter is bound by a trait of its crate, so
/// the list lives in this opaque struct.
#[verifier::external_body]
pub struct CoinList {
    items: SmallVec<[(u8, u8); 20]>,
}

/// The items of a list of lever positions, in order.
pub uninterp spec fn coin_list_items(v: CoinList) -> Seq<(u8, u8)>;

/// `SmallVec::new`: an empty list.
#[verifier::external_body]
pub(crate) fn coin_list_new() -> (v: CoinList)
    ensures
        coin_list_items(v) == Seq::<(u8, u8)>::empty(),
{
    CoinList { items: SmallVec::new() }
}

/// `SmallVec::push`: appends one item (it panics only when the length
/// overflows, far beyond the lengths admitted here).
#[verifier::external_body]
pub(crate) fn coin_list_push(v: &mut CoinList, item: (u8, u8))
    requires
        coin_list_items(*old(v)).len() < 1000,
    ensures
        coin_list_items(*final(v)) == coin_list_items(*old(v)).push(item),
{
    v.items.push(item)
}

/// `SmallVec::len`: the number of items.
#[verifier::external_body]
pub(crate) fn coin_list_len(v: &CoinList) -> (n: usize)
    ensures
        n == coin_list_items(*v).len(),
{
    v.items.len()
}

/// `SmallVec::is_empty`: whether there are no items.
#[verifier::external_body]
pub(crate) fn coin_list_is_empty(v: &CoinList) -> (b: bool)
    ensures
        b == (coin_list_items(*v).len() == 0),
{
    v.items.is_empty()
}

/// Indexing a `SmallVec` (through its slice): the item at `i`.
#[verifier::external_body]
pub(crate) fn coin_list_get(v: &CoinList, i: usize) -> (item: (u8, u8))
    requires
        i < coin_list_items(*v).len(),
    ensures
        item == coin_list_items(*v)[i as int],
{
    v.items[i]
}

} // verus!
