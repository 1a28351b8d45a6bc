//! Step-by-step construction of an [`Area`], with validation.
use vstd::prelude::*;
use crate::area::Area;
use crate::coord::Coord;
use crate::point::Point;

verus! {

/// The message of the error that a nonpositive width gives.
pub open spec fn width_message() -> Seq<char> {
    "Areas may not have nonpositive widths."@
}

/// The message of the error that a nonpositive height gives.
pub open spec fn height_message() -> Seq<char> {
    "Areas may not have nonpositive heights."@
}

/// Why an [`AreaBuilder`] could not build an [`Area`].
#[derive(Debug, PartialEq, Eq)]
pub enum AreaBuilderError {
    /// A field without a default was never set; the name of the field.
    UninitializedField(&'static str),
    /// The fields that were set do not make an area; the reason.
    ValidationError(String),
}

/// Builder for [`Area`]. The anchor must be set; the dimensions default to `(1, 1)`.
#[derive(Debug)]
pub struct AreaBuilder<U: Coord> {
    anchor: Option<Point<U>>,
    dimensions: Option<(U, U)>,
}

impl<U: Coord> AreaBuilder<U> {
    /// The anchor that was set, if any.
    pub closed spec fn spec_anchor(self) -> Option<Point<U>> {
        self.anchor
    }

    /// The dimensions that were set, if any.
    pub closed spec fn spec_dimensions(self) -> Option<(U, U)> {
        self.dimensions
    }

    /// Sets the top-left corner of the area to build.
    pub fn anchor(&mut self, value: Point<U>) -> (r: &mut Self)
        ensures
            r.spec_anchor() == Some(value),
            r.spec_dimensions() == old(self).spec_dimensions(),
            *final(self) == *final(r),
    {
        self.anchor = Some(value);
        self
    }

    /// Sets the width and height of the area to build.
    pub fn dimensions(&mut self, value: (U, U)) -> (r: &mut Self)
        ensures
            r.spec_dimensions() == Some(value),
            r.spec_anchor() == old(self).spec_anchor(),
            *final(self) == *final(r),
    {
        self.dimensions = Some(value);
        self
    }

    /// Checks the dimensions that were set: both must be positive.
    pub fn validate(&self) -> (r: Result<(), String>)
        ensures
            match self.spec_dimensions() {
                Some((w, h)) => if w.val() <= 0 {
                    r matches Err(msg) && msg@ == width_message()
                } else if h.val() <= 0 {
                    r matches Err(msg) && msg@ == height_message()
                } else {
                    r is Ok
                },
                None => r is Ok,
            },
    {
        if let Some((w, h)) = self.dimensions {
            if w.at_most(U::zero()) {
                return Err("Areas may not have nonpositive widths.".to_owned());
            }
            if h.at_most(U::zero()) {
                return Err("Areas may not have nonpositive heights.".to_owned());
            }
        }
        Ok(())
    }

    /// Builds the area: validates the dimensions, then needs the anchor.
    pub fn build(&self) -> (r: Result<Area<U>, AreaBuilderError>)
        ensures
            match self.spec_dimensions() {
                Some((w, h)) if w.val() <= 0 => r matches Err(
                    AreaBuilderError::ValidationError(msg),
                ) && msg@ == width_message(),
                Some((w, h)) if h.val() <= 0 => r matches Err(
                    AreaBuilderError::ValidationError(msg),
                ) && msg@ == height_message(),
                _ => match self.spec_anchor() {
                    None => r matches Err(AreaBuilderError::UninitializedField(name)) && name@
                        == "anchor"@,
                    Some(anchor) => r matches Ok(area) && area.spec_anchor() == anchor && match
                        self.spec_dimensions() {
                        Some(dims) => area.spec_dims() == dims,
                        None => area.spec_width() == 1 && area.spec_height() == 1,
                    },
                },
            },
    {
        match self.validate() {
            Err(msg) => {
                return Err(AreaBuilderError::ValidationError(msg));
            },
            Ok(()) => {},
        }
        let anchor = match self.anchor {
            Some(a) => a,
            None => {
                return Err(AreaBuilderError::UninitializedField("anchor"));
            },
        };
        let area = match self.dimensions {
            Some((w, h)) => Area::new(w, h),
            None => Area::unit(),
        };
        Ok(area.at(anchor))
    }
}

impl<U: Coord> Default for AreaBuilder<U> {
    /// A builder with nothing set.
    fn default() -> (r: Self)
        ensures
            r.spec_anchor() is None,
            r.spec_dimensions() is None,
    {
        AreaBuilder { anchor: None, dimensions: None }
    }
}

} // verus!
