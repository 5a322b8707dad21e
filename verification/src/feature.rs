//! Features as they come from the projection: geometry in fixed-point
//! positions on the unit square of the world, with their properties.

use vstd::prelude::*;
use crate::properties::{properties_view, PropertyValue, PropertyView};

verus! {

/// Number of fraction bits of a position on the unit square.
pub const FRACTION_BITS: u8 = 52;

/// A position on the unit square of the world, each coordinate in units of
/// `2^-52`: `x` grows eastwards from the antimeridian, `y` southwards from
/// the northern edge. A position may lie outside the square.
pub type UnitPoint = (i64, i64);

/// Geometry of a feature.
#[derive(Debug, Clone)]
pub enum Geometry {
    Point(i64, i64),
    LineString(Vec<UnitPoint>),
    Polygon(Vec<Vec<UnitPoint>>),
}

/// What a `Geometry` holds, as mathematical values.
pub enum GeometryView {
    Point(i64, i64),
    LineString(Seq<UnitPoint>),
    Polygon(Seq<Seq<UnitPoint>>),
}

impl View for Geometry {
    type V = GeometryView;

    open spec fn view(&self) -> GeometryView {
        match self {
            Geometry::Point(x, y) => GeometryView::Point(*x, *y),
            Geometry::LineString(coords) => GeometryView::LineString(coords@),
            Geometry::Polygon(rings) => GeometryView::Polygon(
                rings@.map_values(|r: Vec<UnitPoint>| r@),
            ),
        }
    }
}

/// A feature: geometry and properties.
#[derive(Debug, Clone)]
pub struct Feature {
    pub geometry: Geometry,
    pub properties: Vec<(String, PropertyValue)>,
}

/// What a `Feature` holds, as mathematical values.
pub struct FeatureView {
    pub geometry: GeometryView,
    pub properties: Seq<PropertyView>,
}

impl View for Feature {
    type V = FeatureView;

    open spec fn view(&self) -> FeatureView {
        FeatureView { geometry: self.geometry@, properties: properties_view(self.properties@) }
    }
}

/// The views of a feature list, in order.
pub open spec fn feature_views(features: Seq<Feature>) -> Seq<FeatureView> {
    features.map_values(|f: Feature| f@)
}

/// The properties of all features, in feature order.
pub open spec fn collected_properties(fs: Seq<FeatureView>) -> Seq<PropertyView>
    decreases fs.len(),
{
    if fs.len() == 0 {
        Seq::<PropertyView>::empty()
    } else {
        collected_properties(fs.drop_last()) + fs.last().properties
    }
}

} // verus!
