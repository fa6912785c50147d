//! Path boolean operations and the SVG reader that feeds them, verified.
//!
//! The boolean engine works on exact integer data. What it decides without geometry is here:
//! broad-phase collision detection between bounding boxes (`collision`, a sweep proved equal
//! to the all-pairs test), the chains that link intersections at one location (`chains`),
//! which winding contributions each operator keeps, the order of start segments for tracing,
//! and the nesting and orientation of paths without crossings (`boolean`), and the tracing
//! walk that builds the result contours from split segments and their windings (`trace`). Curve geometry
//! (curve/curve intersection, ray casting, areas) is computed in floating point and stays
//! outside; its results enter these functions as plain values.
//!
//! The reader (`stream`, `xml_token`, `css_token`, `xml_parse`, `xml_iters`) turns the text of
//! a document into a tree of elements, attributes and text.
use vstd::prelude::*;

pub mod boolean;
pub mod chains;
pub mod checks;
pub mod collision;
pub mod css_token;
pub mod error;
pub mod order;
pub mod span;
pub mod stream;
pub mod trace;
pub mod xml_iters;
pub mod xml_parse;
pub mod xml_token;

use vstd::string::StringSliceAdditionalSpecFns;
use crate::error::SvgResult;
use crate::xml_parse::Document;

verus! {

/// Reads an SVG document.
pub fn parse(svg: &str) -> (r: SvgResult<Document<'_>>)
    requires
        svg.spec_bytes().len() + 3 < u32::MAX,
    ensures
        r matches Ok(d) ==> d.wf() && d.source() == svg.spec_bytes(),
        !svg.spec_bytes().contains(60u8) ==> r is Ok,
        xml_parse::bad_element_start(svg.spec_bytes(), 0) ==> r is Err,
{
    xml_parse::parse_svg(svg)
}

} // verus!
