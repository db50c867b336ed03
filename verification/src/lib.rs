//! Text-region reassembly for scanned comic pages.
//!
//! The crate holds the verified core of an OCR service: the planning of
//! image bands, the normalisation of detector geometry, the clustering of
//! line fragments into reading units, the stitching of band coordinates
//! into page coordinates, and the cache and job bookkeeping around them.
//!
//! All geometry is exact integer arithmetic in fixed point: a length in a
//! band is held in millionths of a pixel, a fraction of an image or a band
//! in millionths, an angle in millionths of a radian, and every threshold
//! of the merge engine is a ratio in thousandths.
//!
//! - [`logic`]: boxes and regions, bands, stitching, chunks, cache keys.
//! - [`picture`]: decoded images, their bands, and the PNG files of the bands.
//! - [`geometry`]: from the detector's rotated boxes to boxes in a band.
//! - [`text`]: white space in recognised text.
//! - [`merge`]: the link rule, and the merging of groups into regions.
//! - [`cluster`]: sub-bands, calibration, and the groups of linked lines.
//! - [`union_find`], [`sorting`], [`table`]: the data structures beneath.
//! - [`state`], [`jobs`], [`handlers`]: the cache, chapter jobs, and the
//!   decisions behind the service's endpoints.
//! - [`platform`], [`anki`]: small items shared with the launcher and the
//!   flashcard export.

pub mod anki;
pub mod cluster;
pub mod geometry;
pub mod handlers;
pub mod jobs;
pub mod logic;
pub mod merge;
pub mod picture;
pub mod platform;
pub mod sorting;
pub mod state;
pub mod table;
pub mod text;
pub mod union_find;
