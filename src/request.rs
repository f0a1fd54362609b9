//! A fetch worker: owns at most one request at a time, records how it was
//! resolved, and is reusable once its result has been consumed.
use vstd::prelude::*;
use crate::cell::Cell;
use crate::queue::RequestKey;
use crate::source::SourceDescriptor;
use crate::schedule::{elapsed, timed_out, REQUEST_TIMEOUT_MS};
use crate::decode::{decode, TileImage, DecodeError, MAX_TILE_SIZE};

verus! {

/// How a worker's current request ended, if it has.
#[derive(Clone, Copy, Debug, PartialEq, Eq, Structural)]
pub enum ResolvedStatus {
    NotResolved,
    Missing,
    Found,
}

/// One fetch worker.
pub struct TileRequest {
    pub key: RequestKey,
    pub time_request: u64,
    /// Free to take a new request.
    pub ready: bool,
    pub resolved: ResolvedStatus,
}

/// Cell that an idle worker reports: depth 0 has cells 0 to 11 only, so
/// this names no cell and cannot be taken for a root cell being fetched.
pub open spec fn idle_cell() -> Cell {
    Cell { depth: 0, index: 13 }
}

pub open spec fn idle_key() -> RequestKey {
    RequestKey { cell: idle_cell(), generation: 0 }
}

impl TileRequest {
    /// An idle worker, created at time `now`.
    pub fn new(now: u64) -> (r: TileRequest)
        ensures
            r.ready,
            r.resolved == ResolvedStatus::NotResolved,
            r.key == idle_key(),
            !r.key.cell.valid(),
            r.time_request == now,
    {
        TileRequest {
            key: RequestKey { cell: Cell { depth: 0, index: 13 }, generation: 0 },
            time_request: now,
            ready: true,
            resolved: ResolvedStatus::NotResolved,
        }
    }

    /// Takes request `key` at time `now`; answers the URL to fetch.
    pub fn send(&mut self, key: RequestKey, source: &SourceDescriptor, now: u64) -> (url: Vec<u8>)
        requires
            old(self).ready,
        ensures
            url@ == source.tile_url_spec(key.cell),
            final(self).key == key,
            final(self).time_request == now,
            !final(self).ready,
            final(self).resolved == ResolvedStatus::NotResolved,
    {
        self.key = key;
        self.ready = false;
        self.resolved = ResolvedStatus::NotResolved;
        self.time_request = now;
        source.tile_url(&key.cell)
    }

    /// Records the end of the request: `found` when a payload arrived.
    pub fn resolve(&mut self, found: bool)
        ensures
            final(self).resolved == (if found { ResolvedStatus::Found } else { ResolvedStatus::Missing }),
            final(self).key == old(self).key,
            final(self).ready == old(self).ready,
            final(self).time_request == old(self).time_request,
    {
        self.resolved = if found {
            ResolvedStatus::Found
        } else {
            ResolvedStatus::Missing
        };
    }

    pub fn get_cell(&self) -> (r: Cell)
        ensures
            r == self.key.cell,
    {
        self.key.cell
    }

    pub fn get_time_request(&self) -> (r: u64)
        ensures
            r == self.time_request,
    {
        self.time_request
    }

    pub fn is_resolved(&self) -> (r: bool)
        ensures
            r == (self.resolved != ResolvedStatus::NotResolved),
    {
        let s = self.resolve_status();
        s == ResolvedStatus::Found || s == ResolvedStatus::Missing
    }

    pub fn is_ready(&self) -> (r: bool)
        ensures
            r == self.ready,
    {
        self.ready
    }

    /// Marks the result as consumed: the worker may take a new request.
    pub fn set_ready(&mut self)
        ensures
            final(self).ready,
            final(self).key == old(self).key,
            final(self).resolved == old(self).resolved,
            final(self).time_request == old(self).time_request,
    {
        self.ready = true;
    }

    /// Abandons the current request: the worker becomes idle.
    pub fn clear(&mut self, now: u64)
        ensures
            final(self).ready,
            final(self).resolved == ResolvedStatus::NotResolved,
            final(self).time_request == now,
            final(self).key == idle_key(),
    {
        self.ready = true;
        self.resolved = ResolvedStatus::NotResolved;
        self.key = RequestKey { cell: Cell { depth: 0, index: 13 }, generation: 0 };
        self.time_request = now;
    }

    /// The request is out and unanswered past the timeout.
    pub fn is_timed_out(&self, now: u64) -> (r: bool)
        ensures
            r == (!self.ready && self.resolved == ResolvedStatus::NotResolved && elapsed(self.time_request, now)
                >= REQUEST_TIMEOUT_MS),
    {
        !self.ready && self.resolved == ResolvedStatus::NotResolved && timed_out(self.time_request, now)
    }

    pub fn resolve_status(&self) -> (r: ResolvedStatus)
        ensures
            r == self.resolved,
    {
        self.resolved
    }

    /// Decodes the payload of a resolved request.
    pub fn get_image(&self, payload: &[u8], source: &SourceDescriptor) -> (r: Result<TileImage, DecodeError>)
        requires
            self.resolved != ResolvedStatus::NotResolved,
            source.tile_size <= MAX_TILE_SIZE,
        ensures
            source.format.is_raster() ==> (if crate::decode::has_signature(payload@, source.format) {
                r matches Ok(TileImage::Raster { format: f, bytes }) && f == source.format && bytes@ == payload@
            } else {
                r == Err::<TileImage, DecodeError>(DecodeError::BadSignature)
            }),
            source.format == crate::source::ImageFormat::Fits ==> match crate::decode::decode_array_spec(payload@, source.tile_size) {
                Ok((t, px, cal)) => r matches Ok(TileImage::Array { pixel, width, pixels, calibration })
                    && pixel == t && width == source.tile_size && pixels@ == px && calibration == cal,
                Err(e) => r == Err::<TileImage, DecodeError>(e),
            },
    {
        decode(payload, source.format, source.tile_size)
    }
}

} // verus!
