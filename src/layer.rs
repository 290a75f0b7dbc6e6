//! Layers group features of similar type and use together, and own the
//! dictionaries that the features' tags index into.

use vstd::prelude::*;

use crate::error::Error;
use crate::feature::TileFeature;
use crate::tag::{decode_tags, get_tag_map, TagMap, TileValue, Value};

verus! {

/// The extent of a layer that does not state one.
pub const DEFAULT_EXTENT: u32 = 4096;

/// A layer as it stands in a tile.
#[derive(Debug)]
pub struct TileLayer {
    pub name: String,
    /// The size of the integer coordinate space of the layer's geometry.
    pub extent: u32,
    pub keys: Vec<String>,
    pub values: Vec<TileValue>,
    pub features: Vec<TileFeature>,
}

/// A layer of a tile, ready to decode its features' tags.
pub struct Layer<'l> {
    inner: &'l TileLayer,
}

impl<'l> Layer<'l> {
    /// The raw layer.
    pub closed spec fn raw(&self) -> TileLayer {
        *self.inner
    }

    /// Creates a new layer from a raw one.
    pub fn new(raw_layer: &'l TileLayer) -> (l: Layer<'l>)
        ensures
            l.raw() == *raw_layer,
    {
        Layer { inner: raw_layer }
    }

    /// Decodes the tags of a feature using the layer's dictionaries.
    pub fn get_tags(&self, tags: &[u32]) -> (r: Result<TagMap, Error>)
        ensures
            match r {
                Ok(m) => m.wf() && decode_tags(self.raw().keys@, self.raw().values@, tags@) == Ok::<
                    Map<Seq<char>, Value>,
                    Error,
                >(m@),
                Err(e) => decode_tags(self.raw().keys@, self.raw().values@, tags@) == Err::<
                    Map<Seq<char>, Value>,
                    Error,
                >(e),
            },
    {
        get_tag_map(&self.inner.keys, &self.inner.values, tags)
    }
}

} // verus!
