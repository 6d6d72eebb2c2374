//! The addressable grid abstraction: a rectangular (2-D, row-major) and a
//! linear (1-D) shape behind one capability trait.

use crate::element::{resize_contents, resize_with_zeros, zero_vec, Element};
use vstd::prelude::*;

verus! {

/// Capability contract over an addressable numeric grid: get and set one
/// cell, read and resize the two dimensions.
///
/// Resizing rebuilds the flat buffer to the new total size `height * width`,
/// padding with the neutral value: existing values keep only their flat
/// position, not their 2-D place.
pub trait Support<T: Element>: Sized {
    /// The flat, row-major contents.
    spec fn contents(&self) -> Seq<T>;

    /// Number of rows.
    spec fn spec_height(&self) -> int;

    /// Number of columns.
    spec fn spec_width(&self) -> int;

    /// Shape invariant.
    spec fn wf(&self) -> bool;

    /// Whether `set_height` accepts `height` (a machine-size limit only).
    spec fn set_height_req(&self, height: usize) -> bool;

    /// The row count `set_height(height)` leaves behind.
    spec fn height_after_set_height(&self, height: usize) -> int;

    /// Whether `set_width` accepts `width` (a machine-size limit only).
    spec fn set_width_req(&self, width: usize) -> bool;

    /// The column count `set_width(width)` leaves behind.
    spec fn width_after_set_width(&self, width: usize) -> int;

    /// What the shape invariant gives every implementation.
    proof fn wf_dims(&self)
        requires
            self.wf(),
        ensures
            0 <= self.spec_height() <= usize::MAX,
            0 <= self.spec_width() <= usize::MAX,
            self.contents().len() == self.spec_height() * self.spec_width(),
            self.spec_height() * self.spec_width() <= usize::MAX,
    ;

    /// Read the cell in row `l`, column `k`.
    fn get_data(&self, l: usize, k: usize) -> (r: &T)
        requires
            self.wf(),
            l < self.spec_height(),
            k < self.spec_width(),
        ensures
            *r == self.contents()[l as int * self.spec_width() + k as int],
    ;

    /// Borrow the cell in row `l`, column `k` for writing in place.
    fn get_data_mut(&mut self, l: usize, k: usize) -> (r: &mut T)
        requires
            old(self).wf(),
            l < old(self).spec_height(),
            k < old(self).spec_width(),
        ensures
            *r == old(self).contents()[l as int * old(self).spec_width() + k as int],
            final(self).wf(),
            final(self).spec_height() == old(self).spec_height(),
            final(self).spec_width() == old(self).spec_width(),
            final(self).contents() == old(self).contents().update(
                l as int * old(self).spec_width() + k as int,
                *final(r),
            ),
    ;

    /// Overwrite the cell in row `l`, column `k`.
    fn set_data(&mut self, l: usize, k: usize, t: T)
        requires
            old(self).wf(),
            l < old(self).spec_height(),
            k < old(self).spec_width(),
        ensures
            final(self).wf(),
            final(self).spec_height() == old(self).spec_height(),
            final(self).spec_width() == old(self).spec_width(),
            final(self).contents() == old(self).contents().update(
                l as int * old(self).spec_width() + k as int,
                t,
            ),
    ;

    /// Number of rows.
    fn height(&self) -> (r: usize)
        requires
            self.wf(),
        ensures
            r == self.spec_height(),
    ;

    /// Number of columns.
    fn width(&self) -> (r: usize)
        requires
            self.wf(),
        ensures
            r == self.spec_width(),
    ;

    /// Resize the row count; the buffer is rebuilt flat to the new total.
    fn set_height(&mut self, height: usize)
        requires
            old(self).wf(),
            old(self).set_height_req(height),
        ensures
            final(self).wf(),
            final(self).spec_height() == old(self).height_after_set_height(height),
            final(self).spec_width() == old(self).spec_width(),
            final(self).contents() == resize_contents(
                old(self).contents(),
                final(self).spec_height() * final(self).spec_width(),
            ),
    ;

    /// Resize the column count; the buffer is rebuilt flat to the new total.
    fn set_width(&mut self, width: usize)
        requires
            old(self).wf(),
            old(self).set_width_req(width),
        ensures
            final(self).wf(),
            final(self).spec_height() == old(self).spec_height(),
            final(self).spec_width() == old(self).width_after_set_width(width),
            final(self).contents() == resize_contents(
                old(self).contents(),
                final(self).spec_height() * final(self).spec_width(),
            ),
    ;
}

/// A `height x width` grid stored row-major in one flat buffer.
pub struct RectangularSupport<T> {
    pub height: usize,
    pub width: usize,
    pub data: Vec<T>,
}

/// A 1-D sequence; the height is fixed at 1 and the width is the length.
pub struct LinearSupport<T> {
    pub data: Vec<T>,
}

impl<T: Element> RectangularSupport<T> {
    /// A `height x width` grid of neutral values.
    pub fn new(height: usize, width: usize) -> (r: RectangularSupport<T>)
        requires
            height * width <= usize::MAX,
        ensures
            r.wf(),
            r.spec_height() == height,
            r.spec_width() == width,
            r.contents().len() == height * width,
            forall|i: int| 0 <= i < r.contents().len() ==> r.contents()[i] == T::zero_spec(),
    {
        RectangularSupport { height, width, data: zero_vec::<T>(height * width) }
    }
}

impl<T: Element> Support<T> for RectangularSupport<T> {
    open spec fn contents(&self) -> Seq<T> {
        self.data@
    }

    open spec fn spec_height(&self) -> int {
        self.height as int
    }

    open spec fn spec_width(&self) -> int {
        self.width as int
    }

    open spec fn wf(&self) -> bool {
        &&& self.data@.len() == self.height * self.width
        &&& self.data@.len() <= usize::MAX
    }

    open spec fn set_height_req(&self, height: usize) -> bool {
        height * self.width <= usize::MAX
    }

    open spec fn height_after_set_height(&self, height: usize) -> int {
        height as int
    }

    open spec fn set_width_req(&self, width: usize) -> bool {
        self.height * width <= usize::MAX
    }

    open spec fn width_after_set_width(&self, width: usize) -> int {
        width as int
    }

    proof fn wf_dims(&self) {
    }

    fn get_data(&self, l: usize, k: usize) -> (r: &T) {
        proof {
            crate::geometry::lemma_row_major_index(
                l as int,
                k as int,
                self.height as int,
                self.width as int,
            );
        }
        &self.data[l * self.width + k]
    }

    fn get_data_mut(&mut self, l: usize, k: usize) -> (r: &mut T) {
        proof {
            crate::geometry::lemma_row_major_index(
                l as int,
                k as int,
                self.height as int,
                self.width as int,
            );
        }
        &mut self.data[l * self.width + k]
    }

    fn set_data(&mut self, l: usize, k: usize, t: T) {
        proof {
            crate::geometry::lemma_row_major_index(
                l as int,
                k as int,
                self.height as int,
                self.width as int,
            );
        }
        self.data[l * self.width + k] = t;
    }

    fn height(&self) -> usize {
        self.height
    }

    fn width(&self) -> usize {
        self.width
    }

    fn set_height(&mut self, height: usize) {
        self.height = height;
        let total = self.height * self.width;
        resize_with_zeros(&mut self.data, total);
    }

    fn set_width(&mut self, width: usize) {
        self.width = width;
        let total = self.height * self.width;
        resize_with_zeros(&mut self.data, total);
    }
}

impl<T: Element> LinearSupport<T> {
    /// A sequence of `size` neutral values.
    pub fn new(size: usize) -> (r: LinearSupport<T>)
        ensures
            r.wf(),
            r.spec_height() == 1,
            r.spec_width() == size,
            r.contents().len() == size,
            forall|i: int| 0 <= i < r.contents().len() ==> r.contents()[i] == T::zero_spec(),
    {
        LinearSupport { data: zero_vec::<T>(size) }
    }
}

impl<T: Element> Support<T> for LinearSupport<T> {
    open spec fn contents(&self) -> Seq<T> {
        self.data@
    }

    open spec fn spec_height(&self) -> int {
        1
    }

    open spec fn spec_width(&self) -> int {
        self.data@.len() as int
    }

    open spec fn wf(&self) -> bool {
        self.data@.len() <= usize::MAX
    }

    open spec fn set_height_req(&self, height: usize) -> bool {
        true
    }

    open spec fn height_after_set_height(&self, height: usize) -> int {
        1
    }

    open spec fn set_width_req(&self, width: usize) -> bool {
        true
    }

    open spec fn width_after_set_width(&self, width: usize) -> int {
        width as int
    }

    proof fn wf_dims(&self) {
        assert(1int * self.data@.len() == self.data@.len()) by (nonlinear_arith);
    }

    fn get_data(&self, l: usize, k: usize) -> (r: &T) {
        proof {
            assert(l as int * self.spec_width() + k as int == k as int);
        }
        &self.data[k]
    }

    fn get_data_mut(&mut self, l: usize, k: usize) -> (r: &mut T) {
        proof {
            assert(l as int * old(self).spec_width() + k as int == k as int);
        }
        &mut self.data[k]
    }

    fn set_data(&mut self, l: usize, k: usize, t: T) {
        proof {
            assert(l as int * old(self).spec_width() + k as int == k as int);
        }
        self.data[k] = t;
    }

    fn height(&self) -> usize {
        1
    }

    fn width(&self) -> usize {
        self.data.len()
    }

    fn set_height(&mut self, height: usize) {
        proof {
            assert(resize_contents(self.data@, 1int * self.data@.len() as int) =~= self.data@);
        }
    }

    fn set_width(&mut self, width: usize) {
        resize_with_zeros(&mut self.data, width);
    }
}

} // verus!
