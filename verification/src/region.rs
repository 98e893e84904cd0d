//! Rectangular areas of the screen that are remembered for a later refresh.

use vstd::prelude::*;

use crate::bus::{cs_after, ops_view, writes_fit, BusOp, Op};

verus! {

/// A rectangle of the display, given by its top-left corner and its size in pixels.
#[derive(Copy, Clone, Debug, PartialEq, Eq, Structural)]
pub struct Region {
    pub x: u16,
    pub y: u16,
    pub width: u32,
    pub height: u32,
}

impl Default for Region {
    /// The empty region at the origin.
    fn default() -> (r: Self)
        ensures
            r == (Region { x: 0, y: 0, width: 0, height: 0 }),
    {
        Region { x: 0, y: 0, width: 0, height: 0 }
    }
}

/// The region slots with `region` stored in the first free one, if any.
pub open spec fn stored_in_first_free(before: Seq<Option<Region>>, after: Seq<Option<Region>>, region: Region) -> bool {
    exists|i: int|
        0 <= i < before.len() && #[trigger] before[i] is None && (forall|j: int| 0 <= j < i ==> before[j] is Some)
            && after == before.update(i, Some(region))
}

/// Some region slot is free.
pub open spec fn has_free_slot(slots: Seq<Option<Region>>) -> bool {
    exists|i: int| 0 <= i < slots.len() && #[trigger] slots[i] is None
}

/// Marker for display drivers.
pub trait Block {}

/// Remembering regions of the screen and sending them to the display.
///
/// The sending methods return the bus steps; the code that owns the hardware runs them.
pub trait RegionExt {
    /// The region slots, in order.
    spec fn region_slots(&self) -> Seq<Option<Region>>;

    /// The rectangle can be sent from a frame buffer of `len` bytes.
    spec fn can_show_region(&self, len: int, x: u16, y: u16, width: u32, height: u32) -> bool;

    /// Every remembered region can be sent from a frame buffer of `len` bytes.
    spec fn can_show_regions(&self, len: int) -> bool;

    /// The bus steps that send one rectangle of the buffer.
    spec fn region_steps(&self, buffer: Seq<u8>, x: u16, y: u16, width: u32, height: u32) -> Seq<Op>;

    /// The bus steps that send every remembered region of the buffer, slot by slot.
    spec fn regions_steps(&self, buffer: Seq<u8>) -> Seq<Op>;

    /// Updates only the specified region of the display with the provided buffer.
    fn show_region(&self, buffer: &[u8], top_left_x: u16, top_left_y: u16, width: u32, height: u32) -> (ops: Vec<BusOp>)
        requires
            self.can_show_region(buffer@.len() as int, top_left_x, top_left_y, width, height),
        ensures
            ops_view(ops@) == self.region_steps(buffer@, top_left_x, top_left_y, width, height),
            writes_fit(ops_view(ops@)),
            cs_after(ops_view(ops@), true),
    ;

    /// Remembers a region in the first free slot; fails when all slots are taken.
    fn store_region(&mut self, region: Region) -> (r: Result<(), ()>)
        ensures
            r is Ok <==> has_free_slot(old(self).region_slots()),
            r is Ok ==> stored_in_first_free(old(self).region_slots(), final(self).region_slots(), region),
            r is Err ==> final(self).region_slots() == old(self).region_slots(),
    ;

    /// Remembers the region with the given corner and size.
    fn store_region_from_params(&mut self, x: u16, y: u16, width: u32, height: u32) -> (r: Result<(), ()>)
        ensures
            r is Ok <==> has_free_slot(old(self).region_slots()),
            r is Ok ==> stored_in_first_free(
                old(self).region_slots(),
                final(self).region_slots(),
                Region { x, y, width, height },
            ),
            r is Err ==> final(self).region_slots() == old(self).region_slots(),
    ;

    /// The region slots.
    fn get_regions(&self) -> (slots: &[Option<Region>])
        ensures
            slots@ == self.region_slots(),
    ;

    /// Forgets every remembered region.
    fn clear_regions(&mut self)
        ensures
            forall|i: int| 0 <= i < final(self).region_slots().len() ==> #[trigger] final(self).region_slots()[i] is None,
            final(self).region_slots().len() == old(self).region_slots().len(),
    ;

    /// Updates every remembered region of the display from the buffer.
    fn show_regions(&self, buffer: &[u8]) -> (ops: Vec<BusOp>)
        requires
            self.can_show_regions(buffer@.len() as int),
        ensures
            ops_view(ops@) == self.regions_steps(buffer@),
            writes_fit(ops_view(ops@)),
            cs_after(ops_view(ops@), true),
    ;

    /// Forgets the remembered regions once showing them finished with `shown`: on `Ok`
    /// every slot is freed, on `Err` the slots stay; the outcome is passed on.
    fn show_regions_and_clear(&mut self, shown: Result<(), ()>) -> (r: Result<(), ()>)
        ensures
            r == shown,
            shown is Ok ==> forall|i: int|
                0 <= i < final(self).region_slots().len() ==> #[trigger] final(self).region_slots()[i] is None,
            shown is Ok ==> final(self).region_slots().len() == old(self).region_slots().len(),
            shown is Err ==> final(self).region_slots() == old(self).region_slots(),
    ;
}

} // verus!
