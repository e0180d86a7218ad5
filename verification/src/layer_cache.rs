use crate::journey_bitmap::merge_bm;
use crate::journey_data::blob_map;
use crate::journey_data::deserialize_journey_bitmap;
use crate::journey_data::index_wf;
use crate::journey_data::payloads_wf;
use crate::journey_data::serialize_journey_bitmap;
use crate::journey_header::JourneyKind;
use crate::merged_journey_builder::build_upto;
use crate::merged_journey_builder::build_journey_bitmap;
use crate::merged_journey_builder::JourneyEntry;
use vstd::prelude::*;

verus! {

/// Which aggregated layer a cache entry holds.
#[derive(Debug, PartialEq, Eq, Structural, Clone, Copy)]
pub enum LayerKind {
    JourneyKind(JourneyKind),
    All,
}

/// What a stored layer blob decodes to, when one is stored.
pub open spec fn blob_view(b: Option<Seq<u8>>) -> Option<Map<int, Seq<bool>>> {
    match b {
        Some(bytes) => Some(blob_map(bytes)),
        None => None,
    }
}

/// Memoizes one serialized aggregate bitmap per layer kind. A layer is
/// computed at most once: a present entry is served as it stands, so repeated
/// requests for the same key never recompute.
pub struct LayerCache {
    default_blob: Option<Vec<u8>>,
    flight_blob: Option<Vec<u8>>,
    all_blob: Option<Vec<u8>>,
}

impl LayerCache {
    /// The stored blob of a layer, if one is cached.
    pub closed spec fn blob(&self, kind: LayerKind) -> Option<Seq<u8>> {
        match kind {
            LayerKind::JourneyKind(JourneyKind::DefaultKind) => match self.default_blob {
                Some(b) => Some(b@),
                None => None,
            },
            LayerKind::JourneyKind(JourneyKind::Flight) => match self.flight_blob {
                Some(b) => Some(b@),
                None => None,
            },
            LayerKind::All => match self.all_blob {
                Some(b) => Some(b@),
                None => None,
            },
        }
    }

    /// Every stored blob is a well-formed serialized bitmap, and a stored
    /// whole-map layer is the merge of the two stored kind-specific layers.
    pub closed spec fn wf(&self) -> bool {
        &&& forall|kind: LayerKind|
            match #[trigger] self.blob(kind) {
                Some(b) => index_wf(b) && payloads_wf(b),
                None => true,
            }
        &&& match self.blob(LayerKind::All) {
            Some(ab) => self.blob(LayerKind::JourneyKind(JourneyKind::DefaultKind)) is Some
                && self.blob(LayerKind::JourneyKind(JourneyKind::Flight)) is Some && blob_map(ab)
                == merge_bm(
                blob_map(self.blob(LayerKind::JourneyKind(JourneyKind::DefaultKind))->Some_0),
                blob_map(self.blob(LayerKind::JourneyKind(JourneyKind::Flight))->Some_0),
            ),
            None => true,
        }
    }

    pub fn new() -> (r: LayerCache)
        ensures
            r.wf(),
            forall|kind: LayerKind| #[trigger] r.blob(kind) is None,
    {
        LayerCache { default_blob: None, flight_blob: None, all_blob: None }
    }

    /// The stored blob of a layer, without decoding it.
    pub fn get_raw(&self, kind: LayerKind) -> (r: Option<&Vec<u8>>)
        ensures
            match r {
                Some(b) => self.blob(kind) == Some(b@),
                None => self.blob(kind) is None,
            },
    {
        match kind {
            LayerKind::JourneyKind(JourneyKind::DefaultKind) => self.default_blob.as_ref(),
            LayerKind::JourneyKind(JourneyKind::Flight) => self.flight_blob.as_ref(),
            LayerKind::All => self.all_blob.as_ref(),
        }
    }

    /// The serialized aggregate of a layer, computing and storing it only on
    /// a miss. A kind-specific layer aggregates the surviving entries; the
    /// whole-map layer is the merge of the two kind-specific layers, each
    /// fetched through this same cache.
    pub fn get_or_compute(&mut self, kind: LayerKind, entries: &Vec<JourneyEntry>) -> (r: Vec<
        u8,
    >)
        requires
            old(self).wf(),
            forall|i: int| 0 <= i < entries@.len() ==> (#[trigger] entries@[i]).wf(),
        ensures
            final(self).wf(),
            final(self).blob(kind) == Some(r@),
            index_wf(r@) && payloads_wf(r@),
            old(self).blob(kind) is Some ==> *final(self) == *old(self) && old(self).blob(kind)
                == Some(r@),
            forall|k2: LayerKind|
                old(self).blob(k2) is Some ==> #[trigger] final(self).blob(k2) == old(self).blob(
                    k2,
                ),
            match kind {
                LayerKind::JourneyKind(jk) => (old(self).blob(kind) is None ==> blob_map(r@)
                    == build_upto(
                    Map::empty(),
                    entries@,
                    None,
                    None,
                    Some(jk),
                    entries@.len() as int,
                )) && (forall|k2: LayerKind|
                    k2 != kind && old(self).blob(k2) is None ==> #[trigger] final(self).blob(k2)
                        is None),
                LayerKind::All => blob_map(r@) == merge_bm(
                    blob_view(final(self).blob(LayerKind::JourneyKind(JourneyKind::DefaultKind)))->Some_0,
                    blob_view(final(self).blob(LayerKind::JourneyKind(JourneyKind::Flight)))->Some_0,
                ) && final(self).blob(LayerKind::JourneyKind(JourneyKind::DefaultKind)) is Some
                    && final(self).blob(LayerKind::JourneyKind(JourneyKind::Flight)) is Some && (
                old(self).blob(LayerKind::JourneyKind(JourneyKind::DefaultKind)) is None
                    ==> blob_map(
                    final(self).blob(LayerKind::JourneyKind(JourneyKind::DefaultKind))->Some_0,
                ) == build_upto(
                    Map::empty(),
                    entries@,
                    None,
                    None,
                    Some(JourneyKind::DefaultKind),
                    entries@.len() as int,
                )) && (old(self).blob(LayerKind::JourneyKind(JourneyKind::Flight)) is None
                    ==> blob_map(
                    final(self).blob(LayerKind::JourneyKind(JourneyKind::Flight))->Some_0,
                ) == build_upto(
                    Map::empty(),
                    entries@,
                    None,
                    None,
                    Some(JourneyKind::Flight),
                    entries@.len() as int,
                )),
            },
        decreases (match kind {
            LayerKind::All => 1int,
            _ => 0int,
        }),
    {
        match kind {
            LayerKind::JourneyKind(jk) => {
                let cached = match jk {
                    JourneyKind::DefaultKind => self.default_blob.is_some(),
                    JourneyKind::Flight => self.flight_blob.is_some(),
                };
                if cached {
                    let b = match jk {
                        JourneyKind::DefaultKind => self.default_blob.as_ref().unwrap(),
                        JourneyKind::Flight => self.flight_blob.as_ref().unwrap(),
                    };
                    return clone_blob(b);
                }
                let bm = build_journey_bitmap(entries, None, None, Some(jk));
                let blob = serialize_journey_bitmap(&bm);
                let copy = clone_blob(&blob);
                match jk {
                    JourneyKind::DefaultKind => {
                        self.default_blob = Some(blob);
                    },
                    JourneyKind::Flight => {
                        self.flight_blob = Some(blob);
                    },
                }
                copy
            },
            LayerKind::All => {
                match &self.all_blob {
                    Some(b) => {
                        return clone_blob(b);
                    },
                    None => {},
                }
                let d = self.get_or_compute(
                    LayerKind::JourneyKind(JourneyKind::DefaultKind),
                    entries,
                );
                let f = self.get_or_compute(
                    LayerKind::JourneyKind(JourneyKind::Flight),
                    entries,
                );
                let mut bm_d = match deserialize_journey_bitmap(d.as_slice()) {
                    Ok(b) => b,
                    Err(_) => {
                        proof {
                            assert(false);
                        }
                        crate::journey_bitmap::JourneyBitmap::new()
                    },
                };
                let bm_f = match deserialize_journey_bitmap(f.as_slice()) {
                    Ok(b) => b,
                    Err(_) => {
                        proof {
                            assert(false);
                        }
                        crate::journey_bitmap::JourneyBitmap::new()
                    },
                };
                bm_d.merge(bm_f);
                let blob = serialize_journey_bitmap(&bm_d);
                let copy = clone_blob(&blob);
                self.all_blob = Some(blob);
                copy
            },
        }
    }
}

/// A byte-for-byte copy of a blob.
fn clone_blob(b: &Vec<u8>) -> (r: Vec<u8>)
    ensures
        r@ == b@,
{
    let n = b.len();
    let mut r: Vec<u8> = Vec::new();
    let mut i: usize = 0;
    while i < n
        invariant
            n == b@.len(),
            i <= n,
            r@ == b@.take(i as int),
        decreases n - i,
    {
        r.push(b[i]);
        proof {
            assert(r@ =~= b@.take(i + 1));
        }
        i += 1;
    }
    proof {
        assert(b@.take(n as int) =~= b@);
    }
    r
}

} // verus!
