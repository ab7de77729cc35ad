//! The archive handle of a query: the parent archive, and what its sidecar
//! answers.
use osmflat::Osm;
use vstd::prelude::*;

use crate::archive;
use crate::archive::{header_of, ArchiveContents};
use crate::land::LandRing;

verus! {

/// Which primitive a lookup is about.
#[derive(Clone, Copy, Debug, PartialEq, Eq, Structural)]
pub enum Prim {
    Node,
    Way,
    Relation,
}

/// The postings of one tag value: the indices of the primitives that carry it.
#[derive(Debug)]
pub struct ValueView {
    pub key: Vec<u8>,
    pub value: Vec<u8>,
    pub nodes: Vec<u64>,
    pub ways: Vec<u64>,
    pub relations: Vec<u64>,
}

/// The inverted tag index, as far as a query looks into it: a row for each tag
/// value that one of its terms can match.
#[derive(Debug)]
pub struct TaginfoQuery {
    pub values: Vec<ValueView>,
}

/// What a sidecar was built with, each part as far as a query looks into it.
#[derive(Debug)]
pub struct Sidecar {
    /// The inverted tag index.
    pub taginfo: Option<TaginfoQuery>,
    /// Whether the rings of area relations are precomputed.
    pub multipolygons: bool,
    /// Rings assembled from the archive's own coastline ways.
    pub coastline: Option<Vec<LandRing>>,
    /// Rings of an imported land dataset.
    pub land_polygons: Option<Vec<LandRing>>,
}

/// An archive on its own, or with its sidecar.
pub enum ArchiveKind<'a> {
    Plain(&'a Osm),
    Ext(&'a Osm, Sidecar),
}

/// Archive handle: the open archive, optionally with its sidecar, and the scale
/// of its fixed-point coordinates.
pub struct OsmflatArchive<'a> {
    pub kind: ArchiveKind<'a>,
    pub coord_scale: i32,
}

impl<'a> OsmflatArchive<'a> {
    /// What the parent archive holds.
    pub open spec fn contents(&self) -> ArchiveContents {
        match self.kind {
            ArchiveKind::Plain(o) => archive::archive_contents(*o),
            ArchiveKind::Ext(o, _) => archive::archive_contents(*o),
        }
    }

    /// The sidecar, when there is one.
    pub open spec fn sidecar(&self) -> Option<Sidecar> {
        match self.kind {
            ArchiveKind::Plain(_) => None,
            ArchiveKind::Ext(_, s) => Some(s),
        }
    }

    /// The rows of the inverted tag index, when the sidecar has one.
    pub open spec fn rows(&self) -> Option<Seq<ValueView>> {
        match self.sidecar() {
            Some(s) => match s.taginfo {
                Some(t) => Some(t.values@),
                None => None,
            },
            None => None,
        }
    }

    /// A handle for an archive without a sidecar.
    pub fn plain(osm: &'a Osm) -> (r: Self)
        ensures
            r.kind == ArchiveKind::Plain(osm),
            r.coord_scale == r.contents().header.coord_scale,
    {
        OsmflatArchive { kind: ArchiveKind::Plain(osm), coord_scale: header_of(osm).coord_scale }
    }

    /// A handle for an archive with its sidecar.
    pub fn with_sidecar(osm: &'a Osm, sidecar: Sidecar) -> (r: Self)
        ensures
            r.kind == ArchiveKind::Ext(osm, sidecar),
            r.coord_scale == r.contents().header.coord_scale,
    {
        OsmflatArchive {
            kind: ArchiveKind::Ext(osm, sidecar),
            coord_scale: header_of(osm).coord_scale,
        }
    }

    /// The parent archive.
    pub fn osm(&self) -> (r: &'a Osm)
        ensures
            archive::archive_contents(*r) == self.contents(),
            match self.kind {
                ArchiveKind::Plain(o) => r == o,
                ArchiveKind::Ext(o, _) => r == o,
            },
    {
        match &self.kind {
            ArchiveKind::Plain(o) => o,
            ArchiveKind::Ext(o, _) => o,
        }
    }

    /// The inverted tag index, when a sidecar that has one is loaded.
    pub fn taginfo(&self) -> (r: Option<&TaginfoQuery>)
        ensures
            match r {
                Some(t) => self.sidecar() matches Some(s) && s.taginfo == Some(*t) && self.rows()
                    == Some(t.values@),
                None => self.rows() is None,
            },
    {
        match &self.kind {
            ArchiveKind::Plain(_) => None,
            ArchiveKind::Ext(_, s) => match &s.taginfo {
                Some(t) => Some(t),
                None => None,
            },
        }
    }

    /// Whether a sidecar with precomputed rings of area relations is loaded.
    pub fn multipolygons(&self) -> (r: bool)
        ensures
            r == (self.sidecar() matches Some(s) && s.multipolygons),
    {
        match &self.kind {
            ArchiveKind::Plain(_) => false,
            ArchiveKind::Ext(_, s) => s.multipolygons,
        }
    }

    /// The coastline rings, when a sidecar that has them is loaded.
    pub fn coastline(&self) -> (r: Option<&Vec<LandRing>>)
        ensures
            match r {
                Some(v) => self.sidecar() matches Some(s) && s.coastline == Some(*v),
                None => self.sidecar() matches Some(s) ==> s.coastline is None,
            },
    {
        match &self.kind {
            ArchiveKind::Plain(_) => None,
            ArchiveKind::Ext(_, s) => match &s.coastline {
                Some(v) => Some(v),
                None => None,
            },
        }
    }

    /// The rings of the imported land dataset, when a sidecar that has them is
    /// loaded.
    pub fn land_polygons(&self) -> (r: Option<&Vec<LandRing>>)
        ensures
            match r {
                Some(v) => self.sidecar() matches Some(s) && s.land_polygons == Some(*v),
                None => self.sidecar() matches Some(s) ==> s.land_polygons is None,
            },
    {
        match &self.kind {
            ArchiveKind::Plain(_) => None,
            ArchiveKind::Ext(_, s) => match &s.land_polygons {
                Some(v) => Some(v),
                None => None,
            },
        }
    }
}

/// The bounding box of an archive in its fixed-point units, and their scale: an
/// edge divided by the scale is in degrees.
#[derive(Clone, Copy, Debug, PartialEq, Eq, Structural)]
pub struct Envelope {
    pub min_x: i32,
    pub min_y: i32,
    pub max_x: i32,
    pub max_y: i32,
    pub scale: i32,
}

/// The bounding box that the header of an archive gives; `None` for a missing
/// archive.
pub fn osmflat_archive_envelope(archive: Option<&OsmflatArchive>) -> (r: Option<Envelope>)
    ensures
        match (archive, r) {
            (Some(handle), Some(e)) => {
                &&& e.min_x == handle.contents().header.bbox_left
                &&& e.min_y == handle.contents().header.bbox_bottom
                &&& e.max_x == handle.contents().header.bbox_right
                &&& e.max_y == handle.contents().header.bbox_top
                &&& e.scale == handle.coord_scale
            },
            (None, None) => true,
            _ => false,
        },
{
    match archive {
        Some(handle) => {
            let header = header_of(handle.osm());
            Some(
                Envelope {
                    min_x: header.bbox_left,
                    min_y: header.bbox_bottom,
                    max_x: header.bbox_right,
                    max_y: header.bbox_top,
                    scale: handle.coord_scale,
                },
            )
        },
        None => None,
    }
}

/// A handle without a sidecar has no index; one with a sidecar has the rows of the
/// sidecar's index, if that has one. Either way its contents are those of the
/// archive that it was made of.
pub proof fn a_handle_gives_what_it_was_made_of(osm: &Osm, sidecar: Sidecar, scale: i32)
    ensures
        ({
            let plain = OsmflatArchive { kind: ArchiveKind::Plain(osm), coord_scale: scale };
            let ext = OsmflatArchive { kind: ArchiveKind::Ext(osm, sidecar), coord_scale: scale };
            &&& plain.contents() == archive::archive_contents(*osm)
            &&& ext.contents() == archive::archive_contents(*osm)
            &&& plain.sidecar() is None
            &&& plain.rows() is None
            &&& ext.sidecar() == Some(sidecar)
            &&& match sidecar.taginfo {
                Some(t) => ext.rows() == Some(t.values@),
                None => ext.rows() is None,
            }
        }),
{
}

} // verus!
