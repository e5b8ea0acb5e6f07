//! The decisions of the item editor: which request an edit of an owned item
//! sends to the inventory.
use vstd::prelude::*;
use crate::deduce::ItemPoints;
use crate::ids::{ItemId, ItemLvl, ItemType};
use crate::model::OwnedItem;

verus! {

/// An edit that the item view asks for.
#[derive(Debug, Clone, Copy)]
pub enum ItemEdit {
    SetLevel(ItemLvl),
    SetPoints(ItemPoints),
    Delete,
}

/// The request that an edit sends to the inventory.
#[derive(Debug, Clone)]
pub enum InventoryEdit {
    /// Store this record for an item of this type.
    AddItem(ItemType, OwnedItem),
    /// Remove the record of this item.
    RemoveItem(ItemId),
}

/// The request that an edit of an item of type `i_type` sends, given the
/// player's record of the item (`None` when it is not owned). A new level or
/// new points send a fresh record that keeps the other value, and only when
/// the value changes; a deletion removes the record. Nothing is sent for an
/// item that is not owned.
pub fn item_edit(i_type: ItemType, inv: Option<&OwnedItem>, edit: ItemEdit) -> (r: Option<InventoryEdit>)
    ensures
        inv is None ==> r is None,
        inv matches Some(o) ==> match edit {
            ItemEdit::SetLevel(l) => if l == o.lvl {
                r is None
            } else {
                &&& r matches Some(InventoryEdit::AddItem(t, n))
                &&& t == i_type
                &&& n.id@ == o.id@
                &&& n.lvl == l
                &&& n.points == o.points
                &&& n.added is Some
                &&& n.last_changed is Some
            },
            ItemEdit::SetPoints(p) => if p == o.points {
                r is None
            } else {
                &&& r matches Some(InventoryEdit::AddItem(t, n))
                &&& t == i_type
                &&& n.id@ == o.id@
                &&& n.lvl == o.lvl
                &&& n.points == p
                &&& n.added is Some
                &&& n.last_changed is Some
            },
            ItemEdit::Delete => r matches Some(InventoryEdit::RemoveItem(id)) && id@ == o.id@,
        },
{
    match inv {
        None => None,
        Some(o) => match edit {
            ItemEdit::SetLevel(l) => {
                if l == o.lvl {
                    None
                } else {
                    Some(InventoryEdit::AddItem(i_type, OwnedItem::new(o.id.clone(), l, o.points)))
                }
            },
            ItemEdit::SetPoints(p) => {
                if p == o.points {
                    None
                } else {
                    Some(InventoryEdit::AddItem(i_type, OwnedItem::new(o.id.clone(), o.lvl, p)))
                }
            },
            ItemEdit::Delete => Some(InventoryEdit::RemoveItem(o.id.clone())),
        },
    }
}

} // verus!
