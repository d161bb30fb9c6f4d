use vstd::prelude::*;
use crate::error::Error;
use crate::extrude::{extruded, footprint_loop};
use crate::footprint::compacted;
use crate::model::{Model, ModelView};
use crate::primitives::SurfaceType;

verus! {

/// The flat-roofed prism of a classified model: the ground footprint alone,
/// extruded along its boundary loop to height `h`.
pub open spec fn converted<S>(m: ModelView<S>, h: S) -> ModelView<S> {
    let ground = compacted(m);
    extruded(ground, footprint_loop(ground.faces), h)
}

impl<S: Copy> Model<S> {
    /// Whether some face is classified as ground.
    pub fn has_ground_face(&self) -> (found: bool)
        ensures
            found == self@.has_ground(),
    {
        let n: usize = self.faces.len();
        let mut i: usize = 0;
        while i < n
            invariant
                i <= n,
                n == self.faces@.len(),
                forall|k: int|
                    0 <= k < i ==> (#[trigger] self@.faces[k]).surface_type
                        != SurfaceType::Ground,
            decreases n - i,
        {
            assert(self@.faces[i as int] == self.faces@[i as int]@);
            if self.faces[i].surface_type == SurfaceType::Ground {
                return true;
            }
            i += 1;
        }
        false
    }

    /// Convert a classified model to a flat-roofed prism of the given height.
    ///
    /// `height_positive` tells whether `target_height` is greater than zero.
    /// The conversion is refused, and the model left as it is, where no face
    /// is ground or where the height is not positive; the missing ground is
    /// reported first.
    pub fn to_lod1_2(&mut self, target_height: S, height_positive: bool) -> (result: Result<
        (),
        Error,
    >)
        requires
            old(self)@.wf(),
        ensures
            match result {
                Ok(_) => {
                    &&& old(self)@.has_ground()
                    &&& height_positive
                    &&& final(self)@ == converted(old(self)@, target_height)
                    &&& final(self)@.adjacency_current()
                },
                Err(Error::NoGroundSurface) => {
                    &&& !old(self)@.has_ground()
                    &&& *final(self) == *old(self)
                },
                Err(Error::NonPositiveHeight) => {
                    &&& old(self)@.has_ground()
                    &&& !height_positive
                    &&& *final(self) == *old(self)
                },
            },
            final(self)@.wf(),
    {
        if !self.has_ground_face() {
            return Err(Error::NoGroundSurface);
        }
        if !height_positive {
            return Err(Error::NonPositiveHeight);
        }
        self.remove_non_ground_surfaces();
        self.extrude_to_lod1(target_height);
        Ok(())
    }
}

} // verus!
