//! A model of the atomic-replace protocol the store file is written
//! with: a writer stages the new image in a temporary file beside the
//! store and makes it visible only through the final rename. A reader
//! sees either the old image or the new one, never a mixture, and an
//! interruption before the rename leaves the old image untouched.

use vstd::prelude::*;

verus! {

/// The visible store image and, while a save is in flight, the staged
/// temporary image.
pub struct StoreSlot {
    pub visible: Vec<u8>,
    pub staged: Option<Vec<u8>>,
}

impl StoreSlot {
    /// A slot holding the current store image, with no save in flight.
    pub fn new(visible: Vec<u8>) -> (r: StoreSlot)
        ensures
            r.visible@ == visible@,
            r.staged is None,
    {
        StoreSlot { visible, staged: None }
    }

    /// Writes the new image to the temporary file. The visible image
    /// is untouched: a reader still sees the old store whole.
    pub fn stage(&mut self, bytes: Vec<u8>)
        ensures
            final(self).visible@ == old(self).visible@,
            final(self).staged matches Some(b) && b@ == bytes@,
    {
        self.staged = Some(bytes);
    }

    /// A crash or interruption before the rename: the temporary file
    /// is lost, the visible image is still the old one.
    pub fn interrupt(&mut self)
        ensures
            final(self).visible@ == old(self).visible@,
            final(self).staged is None,
    {
        self.staged = None;
    }

    /// The rename: the staged image becomes visible in one step.
    pub fn commit(&mut self)
        requires
            old(self).staged is Some,
        ensures
            final(self).visible@ == old(self).staged->Some_0@,
            final(self).staged is None,
    {
        let staged = self.staged.take();
        match staged {
            Some(bytes) => {
                self.visible = bytes;
            },
            None => {},
        }
    }
}

} // verus!
