use hips_tiles::buffer::{ArrayBuffer, ArrayI16, ArrayU8, TileArrayBuffer};
use hips_tiles::cache::{Admission, SlotTable};
use hips_tiles::cell::Cell;
use hips_tiles::units::{decode_image, decode_units};
use hips_tiles::decode::{decode, name_units, Calibration, DecodeError, PixelType, TileImage};
use hips_tiles::encode::encode_array;
use hips_tiles::engine::TileEngine;
use hips_tiles::executor::{Executor, SortJob};
use hips_tiles::schedule::{may_fetch, should_look_for_tiles, timed_out};
use hips_tiles::index::wanted_cells;
use hips_tiles::layer::{Completion, FetchOutcome, TileLayer};
use hips_tiles::number::{parse_decimal_field, push_decimal_text, Decimal};
use hips_tiles::queue::{Enqueued, Priority, RequestKey, RequestQueue};
use hips_tiles::request::{ResolvedStatus, TileRequest};
use hips_tiles::source::{ImageFormat, SourceDescriptor};
use hips_tiles::texture::Texture2DArray;

fn cell(depth: u8, index: u64) -> Cell {
    Cell::new(depth, index).unwrap()
}

fn key(c: Cell, generation: u64) -> RequestKey {
    RequestKey { cell: c, generation }
}

fn card(text: &str) -> Vec<u8> {
    let mut v = text.as_bytes().to_vec();
    assert!(v.len() <= 80);
    v.resize(80, b' ');
    v
}

/// A scientific-array payload with the given header lines and pixel bytes.
fn fits_payload(cards: &[&str], pixels: &[u8]) -> Vec<u8> {
    let mut p = Vec::new();
    for c in cards {
        p.extend(card(c));
    }
    p.extend(card("END"));
    while p.len() % 2880 != 0 {
        p.push(b' ');
    }
    p.extend_from_slice(pixels);
    while p.len() % 2880 != 0 {
        p.push(0);
    }
    p
}

#[test]
fn cell_validity_and_family() {
    assert!(Cell::new(0, 11).is_some());
    assert!(Cell::new(0, 12).is_none());
    assert!(Cell::new(1, 47).is_some());
    assert!(Cell::new(1, 48).is_none());
    assert!(Cell::new(30, 0).is_none());
    let c = cell(3, 42);
    assert_eq!(c.parent(), cell(2, 10));
    assert_eq!(c.ancestor(3), cell(0, 0));
    assert_eq!(cell(5, 1000).ancestor(3), cell(2, 15));
    let kids = cell(2, 10).children();
    assert_eq!(kids, [cell(3, 40), cell(3, 41), cell(3, 42), cell(3, 43)]);
    assert_eq!(Cell::num_cells_at(29), 12 * (1u64 << 58));
}

#[test]
fn tile_url_uses_directory_buckets() {
    let src = SourceDescriptor::new("http://alasky.example/DSS", ImageFormat::Png, 512);
    let url = String::from_utf8(src.tile_url(&cell(3, 42))).unwrap();
    assert_eq!(url, "http://alasky.example/DSS/Norder3/Dir0/Npix42.png");
    let src = SourceDescriptor::new("http://h/s", ImageFormat::Fits, 512);
    let url = String::from_utf8(src.tile_url(&cell(10, 123456))).unwrap();
    assert_eq!(url, "http://h/s/Norder10/Dir120000/Npix123456.fits");
    let src = SourceDescriptor::new("http://h/s", ImageFormat::Jpeg, 512);
    let url = String::from_utf8(src.tile_url(&cell(8, 10000))).unwrap();
    assert_eq!(url, "http://h/s/Norder8/Dir10000/Npix10000.jpg");
}

#[test]
fn same_cell_twice_occupies_one_slot() {
    let mut t = SlotTable::new(4);
    let a = t.insert(cell(3, 42), 1, false);
    assert_eq!(a, Admission::Filled(0));
    assert_eq!(t.occupied(), 1);
    let b = t.insert(cell(3, 42), 2, false);
    assert_eq!(b, Admission::Touched(0));
    assert_eq!(t.occupied(), 1);
    assert_eq!(t.slot(0).last_touch, 2);
}

#[test]
fn full_table_of_pinned_slots_defers() {
    let mut t = SlotTable::new(3);
    for i in 0..3u64 {
        t.insert(cell(3, i), i, true);
    }
    let before: Vec<_> = (0..3).map(|i| t.slot(i)).collect();
    let r = t.insert(cell(3, 99), 10, false);
    assert_eq!(r, Admission::Deferred);
    let after: Vec<_> = (0..3).map(|i| t.slot(i)).collect();
    assert_eq!(before, after);
    assert_eq!(t.find(&cell(3, 99)), None);
}

#[test]
fn eviction_takes_least_recently_touched() {
    let mut t = SlotTable::new(4);
    for i in 0..4u64 {
        assert_eq!(t.insert(cell(4, i), 10 + i, false), Admission::Filled(i as usize));
    }
    // the first cell is refreshed, so the second is now the oldest
    assert!(t.touch(&cell(4, 0), 20));
    let r = t.insert(cell(4, 4), 21, false);
    assert_eq!(r, Admission::Evicted { slot: 1, evicted: cell(4, 1) });
    assert_eq!(t.find(&cell(4, 4)), Some(1));
    assert_eq!(t.find(&cell(4, 1)), None);
    assert_eq!(t.occupied(), 4);
}

#[test]
fn five_cells_capacity_four_evicts_oldest_original() {
    let mut t = SlotTable::new(4);
    for i in 0..4u64 {
        t.insert(cell(6, 100 + i), i + 1, false);
    }
    let r = t.insert(cell(6, 104), 5, false);
    assert_eq!(r, Admission::Evicted { slot: 0, evicted: cell(6, 100) });
    assert_eq!(t.find(&cell(6, 104)), Some(0));
    assert_eq!(t.slot(0).last_touch, 5);
}

#[test]
fn eviction_skips_pinned_slots() {
    let mut t = SlotTable::new(2);
    t.insert(cell(2, 0), 1, true);
    t.insert(cell(2, 1), 5, false);
    let r = t.insert(cell(2, 2), 6, false);
    assert_eq!(r, Admission::Evicted { slot: 1, evicted: cell(2, 1) });
}

#[test]
fn pins_follow_view_and_snapshot_lists_visible() {
    let mut t = SlotTable::new(3);
    t.insert(cell(0, 3), 1, false);
    t.insert(cell(3, 7), 1, false);
    t.insert(cell(3, 8), 1, true);
    let visible = vec![cell(3, 7)];
    t.set_pins(&visible, 0);
    assert!(t.slot(0).pinned);
    assert!(t.slot(1).pinned);
    assert!(!t.slot(2).pinned);
    assert_eq!(t.snapshot(&visible), vec![(cell(3, 7), 1)]);
    t.clear();
    assert_eq!(t.occupied(), 0);
}

#[test]
fn enqueue_same_identity_twice_keeps_one() {
    let mut q = RequestQueue::new();
    let k = key(cell(3, 42), 0);
    assert_eq!(q.enqueue(k, Priority::Visible, 0), Enqueued::Added);
    assert_eq!(q.enqueue(k, Priority::Visible, 1), Enqueued::Ignored);
    assert_eq!(q.pending_len(), 1);
    let issued = q.next(1).unwrap();
    assert_eq!(issued.key, k);
    assert_eq!(q.enqueue(k, Priority::Base, 2), Enqueued::Ignored);
    assert_eq!(q.pending_len(), 0);
    assert_eq!(q.in_flight_len(), 1);
}

#[test]
fn prefetch_is_promoted_not_duplicated() {
    let mut q = RequestQueue::new();
    let k = key(cell(2, 5), 0);
    assert_eq!(q.enqueue(k, Priority::Ancestor, 0), Enqueued::Added);
    assert_eq!(q.enqueue(k, Priority::Visible, 0), Enqueued::Promoted);
    assert_eq!(q.pending_len(), 1);
    assert_eq!(q.next(0).unwrap().priority, Priority::Visible);
}

#[test]
fn queue_orders_by_class_then_age() {
    let mut q = RequestQueue::new();
    q.enqueue(key(cell(5, 1), 0), Priority::Ancestor, 0);
    q.enqueue(key(cell(5, 2), 0), Priority::Visible, 0);
    q.enqueue(key(cell(5, 3), 0), Priority::Visible, 0);
    q.enqueue(key(cell(0, 4), 0), Priority::Base, 0);
    let order: Vec<Cell> = (0..4).map(|_| q.next(0).unwrap().key.cell).collect();
    assert_eq!(order, vec![cell(0, 4), cell(5, 2), cell(5, 3), cell(5, 1)]);
    assert!(q.next(0).is_none());
    assert!(q.complete(&key(cell(5, 2), 0)).is_some());
    assert!(q.complete(&key(cell(5, 2), 0)).is_none());
    assert_eq!(q.in_flight_len(), 3);
}

#[test]
fn clear_drops_only_pending() {
    let mut q = RequestQueue::new();
    q.enqueue(key(cell(1, 1), 0), Priority::Visible, 0);
    q.enqueue(key(cell(1, 2), 0), Priority::Visible, 0);
    q.next(0);
    q.clear();
    assert_eq!(q.pending_len(), 0);
    assert_eq!(q.in_flight_len(), 1);
    assert!(q.is_in_flight(&key(cell(1, 1), 0)));
}

#[test]
fn decimal_fields_parse() {
    assert_eq!(parse_decimal_field(b"   -12.50 / a comment"), Some(Decimal { mantissa: -1250, scale: 2 }));
    assert_eq!(parse_decimal_field(b"16"), Some(Decimal { mantissa: 16, scale: 0 }));
    assert_eq!(parse_decimal_field(b"+0.001  "), Some(Decimal { mantissa: 1, scale: 3 }));
    assert_eq!(parse_decimal_field(b"T"), None);
    assert_eq!(parse_decimal_field(b"1.5E3"), Some(Decimal { mantissa: 1500, scale: 0 }));
    assert_eq!(parse_decimal_field(b"  1.0E+00 / scale"), Some(Decimal { mantissa: 10, scale: 1 }));
    assert_eq!(parse_decimal_field(b"-2.5D-3"), Some(Decimal { mantissa: -25, scale: 4 }));
    assert_eq!(parse_decimal_field(b"3e2"), Some(Decimal { mantissa: 300, scale: 0 }));
    assert_eq!(parse_decimal_field(b"1E20"), None);
    assert_eq!(parse_decimal_field(b"1E"), None);
    assert_eq!(parse_decimal_field(b"1E1234"), None);
    assert_eq!(parse_decimal_field(b"1234567890123456789"), None);
    let mut out = Vec::new();
    push_decimal_text(&mut out, Decimal { mantissa: -5, scale: 3 });
    assert_eq!(out, b"-0.005".to_vec());
    let mut out = Vec::new();
    push_decimal_text(&mut out, Decimal { mantissa: 12345, scale: 2 });
    assert_eq!(out, b"123.45".to_vec());
}

#[test]
fn calibration_round_trip() {
    let cal = Calibration {
        scale: Decimal { mantissa: 25, scale: 1 },
        offset: Decimal { mantissa: -1024, scale: 0 },
        blank: Some(-32768),
    };
    let mut text = |d: Decimal| {
        let mut v = Vec::new();
        push_decimal_text(&mut v, d);
        String::from_utf8(v).unwrap()
    };
    let bscale = format!("BSCALE  = {}", text(cal.scale));
    let bzero = format!("BZERO   = {}", text(cal.offset));
    let blank = format!("BLANK   = {}", text(Decimal { mantissa: -32768, scale: 0 }));
    let pixels: Vec<u8> = (0..2 * 2 * 2).map(|i| i as u8).collect();
    let p = fits_payload(
        &["SIMPLE  =                    T", "BITPIX  =                   16", "NAXIS   = 2", "NAXIS1  = 2", "NAXIS2  = 2", &bscale, &bzero, &blank],
        &pixels,
    );
    match decode(&p, ImageFormat::Fits, 2) {
        Ok(TileImage::Array { pixel, width, pixels: px, calibration }) => {
            assert_eq!(pixel, PixelType::I16);
            assert_eq!(width, 2);
            assert_eq!(px, pixels);
            assert_eq!(calibration, cal);
        }
        other => panic!("unexpected {:?}", other),
    }
}

#[test]
fn calibration_in_exponent_form() {
    let p = fits_payload(&["BITPIX  = 8", "NAXIS1  = 1", "NAXIS2  = 1", "BSCALE  =  2.5000000000E+00", "BZERO   = -1.0E+03"], &[1]);
    match decode(&p, ImageFormat::Fits, 1) {
        Ok(TileImage::Array { calibration, .. }) => {
            assert_eq!(calibration.scale, Decimal { mantissa: 25000000000, scale: 10 });
            assert_eq!(calibration.offset, Decimal { mantissa: -1000, scale: 0 });
        }
        other => panic!("unexpected {:?}", other),
    }
}

#[test]
fn calibration_defaults_when_absent() {
    let p = fits_payload(&["BITPIX  = 8", "NAXIS1  = 1", "NAXIS2  = 1", "BSCALE  = 'text'"], &[7]);
    match decode(&p, ImageFormat::Fits, 1) {
        Ok(TileImage::Array { calibration, pixels, .. }) => {
            assert_eq!(calibration.scale, Decimal { mantissa: 1, scale: 0 });
            assert_eq!(calibration.offset, Decimal { mantissa: 0, scale: 0 });
            assert_eq!(calibration.blank, None);
            assert_eq!(pixels, vec![7]);
        }
        other => panic!("unexpected {:?}", other),
    }
}

#[test]
fn decode_errors() {
    let no_end: Vec<u8> = card("BITPIX  = 8");
    assert_eq!(decode(&no_end, ImageFormat::Fits, 1).unwrap_err(), DecodeError::NoHeaderEnd);
    let p = fits_payload(&["BITPIX  = 12", "NAXIS1  = 1", "NAXIS2  = 1"], &[0]);
    assert_eq!(decode(&p, ImageFormat::Fits, 1).unwrap_err(), DecodeError::BadPixelType);
    let p = fits_payload(&["BITPIX  = 8", "NAXIS1  = 2", "NAXIS2  = 1"], &[0, 0]);
    assert_eq!(decode(&p, ImageFormat::Fits, 2).unwrap_err(), DecodeError::BadDimensions);
    let mut p = fits_payload(&["BITPIX  = 32", "NAXIS1  = 2", "NAXIS2  = 2"], &[]);
    p.truncate(2880 + 8);
    p.extend_from_slice(&[1; 8]);
    assert_eq!(decode(&p, ImageFormat::Fits, 2).unwrap_err(), DecodeError::Truncated);
    assert_eq!(decode(&[1, 2, 3], ImageFormat::Png, 512).unwrap_err(), DecodeError::BadSignature);
    let png = vec![137, 80, 78, 71, 13, 10, 26, 10, 1, 2];
    match decode(&png, ImageFormat::Png, 512) {
        Ok(TileImage::Raster { format, bytes }) => {
            assert_eq!(format, ImageFormat::Png);
            assert_eq!(bytes, png);
        }
        other => panic!("unexpected {:?}", other),
    }
    let jpg = vec![255, 216, 255, 224];
    assert!(matches!(decode(&jpg, ImageFormat::Jpeg, 512), Ok(TileImage::Raster { .. })));
}

#[test]
fn wanted_cells_add_ancestors_of_deep_cells() {
    let visible = vec![cell(5, 1000), cell(5, 1001), cell(5, 1000), cell(2, 3)];
    let w = wanted_cells(&visible, 0);
    assert_eq!(w.visible, vec![cell(5, 1000), cell(5, 1001), cell(2, 3)]);
    assert_eq!(w.ancestors, vec![cell(2, 15)]);
    let again = wanted_cells(&visible, 0);
    assert_eq!(again.visible, w.visible);
    assert_eq!(again.ancestors, w.ancestors);
    let shallow = wanted_cells(&visible, 3);
    assert!(shallow.ancestors.is_empty());
    let own = wanted_cells(&vec![cell(5, 1000), cell(2, 15)], 0);
    assert!(own.ancestors.is_empty());
}

fn layer(format: ImageFormat, capacity: usize) -> TileLayer {
    TileLayer::new(SourceDescriptor::new("http://h/old", format, 1), capacity, 4, 0)
}

/// Issues every pending request, answering each with `Missing` for root cells.
fn drain_base(l: &mut TileLayer) {
    while let Some((q, _)) = l.issue(0) {
        l.complete(q.key, FetchOutcome::Missing, 0);
    }
}

#[test]
fn new_layer_queues_base_set() {
    let mut l = layer(ImageFormat::Png, 4);
    assert_eq!(l.queue.pending_len(), 12);
    let (q, url) = l.issue(0).unwrap();
    assert_eq!(q.key, key(cell(0, 0), 0));
    assert_eq!(q.priority, Priority::Base);
    assert_eq!(String::from_utf8(url).unwrap(), "http://h/old/Norder0/Dir0/Npix0.png");
}

#[test]
fn missing_cell_is_not_requested_again() {
    let mut l = layer(ImageFormat::Png, 4);
    drain_base(&mut l);
    let visible = vec![cell(3, 42)];
    l.request_view(&visible, 0, 1);
    assert_eq!(l.queue.pending_len(), 1);
    let (q, url) = l.issue(1).unwrap();
    assert_eq!(q.key.cell, cell(3, 42));
    assert_eq!(String::from_utf8(url).unwrap(), "http://h/old/Norder3/Dir0/Npix42.png");
    assert!(matches!(l.complete(q.key, FetchOutcome::Missing, 2), Completion::Missing));
    assert!(l.missing.contains(&cell(3, 42)));
    l.request_view(&visible, 0, 3);
    assert_eq!(l.queue.pending_len(), 0);
    assert_eq!(l.queue.in_flight_len(), 0);
}

#[test]
fn source_change_discards_in_flight_and_requeues_base() {
    let mut l = layer(ImageFormat::Png, 4);
    drain_base(&mut l);
    l.request_view(&vec![cell(3, 1), cell(3, 2)], 0, 1);
    let (a, _) = l.issue(1).unwrap();
    let (b, _) = l.issue(1).unwrap();
    assert_eq!(l.queue.in_flight_len(), 2);
    l.set_source(SourceDescriptor::new("http://h/new", ImageFormat::Png, 1), 2);
    assert_eq!(l.generation, 1);
    assert_eq!(l.queue.pending_len(), 12);
    let png = vec![137, 80, 78, 71, 13, 10, 26, 10];
    assert!(matches!(l.complete(a.key, FetchOutcome::Payload(png.clone()), 3), Completion::Discarded));
    assert!(matches!(l.complete(b.key, FetchOutcome::Payload(png), 3), Completion::Discarded));
    assert_eq!(l.table.occupied(), 0);
    assert_eq!(l.queue.in_flight_len(), 0);
    let (q, url) = l.issue(4).unwrap();
    assert_eq!(q.key, key(cell(0, 0), 1));
    assert_eq!(String::from_utf8(url).unwrap(), "http://h/new/Norder0/Dir0/Npix0.png");
}

#[test]
fn decoded_tile_is_stored_and_snapshotted() {
    let mut l = layer(ImageFormat::Png, 2);
    drain_base(&mut l);
    l.request_view(&vec![cell(3, 5)], 0, 1);
    let (q, _) = l.issue(1).unwrap();
    let png = vec![137, 80, 78, 71, 13, 10, 26, 10, 9];
    match l.complete(q.key, FetchOutcome::Payload(png.clone()), 2) {
        Completion::Stored { slot, admission, image } => {
            assert_eq!(slot, 0);
            assert_eq!(admission, Admission::Filled(0));
            assert!(matches!(image, TileImage::Raster { bytes, .. } if bytes == png));
        }
        other => panic!("unexpected {:?}", other),
    }
    assert!(l.table.slot(0).pinned);
    assert_eq!(l.snapshot(), vec![(cell(3, 5), 0)]);
    // resident now: a new view does not ask for it again
    l.request_view(&vec![cell(3, 5)], 0, 3);
    assert_eq!(l.queue.pending_len(), 0);
}

#[test]
fn failures_back_off_then_give_up() {
    let mut l = layer(ImageFormat::Png, 2);
    drain_base(&mut l);
    l.request_view(&vec![cell(3, 6)], 0, 100);
    let (q, _) = l.issue(100).unwrap();
    assert!(matches!(l.complete(q.key, FetchOutcome::Failed, 100), Completion::Retrying { not_before: 1100 }));
    assert!(l.issue(500).is_none());
    let (q, _) = l.issue(1100).unwrap();
    assert_eq!(q.failures, 1);
    assert!(matches!(l.complete(q.key, FetchOutcome::Failed, 1100), Completion::Retrying { not_before: 3100 }));
    let (q, _) = l.issue(3100).unwrap();
    assert!(matches!(l.complete(q.key, FetchOutcome::Failed, 3100), Completion::Missing));
    assert!(l.missing.contains(&cell(3, 6)));
}

#[test]
fn undecodable_payload_counts_as_missing() {
    let mut l = layer(ImageFormat::Jpeg, 2);
    drain_base(&mut l);
    l.request_view(&vec![cell(3, 9)], 0, 1);
    let (q, _) = l.issue(1).unwrap();
    assert!(matches!(l.complete(q.key, FetchOutcome::Payload(vec![0, 1]), 2), Completion::Missing));
    assert!(l.missing.contains(&cell(3, 9)));
}

#[test]
fn stale_result_is_dropped_and_unknown_key_ignored() {
    let mut l = layer(ImageFormat::Png, 2);
    drain_base(&mut l);
    l.request_view(&vec![cell(3, 9)], 0, 1);
    let (q, _) = l.issue(1).unwrap();
    l.request_view(&vec![cell(3, 10)], 0, 2);
    let png = vec![137, 80, 78, 71, 13, 10, 26, 10];
    assert!(matches!(l.complete(q.key, FetchOutcome::Payload(png), 3), Completion::Stale));
    assert_eq!(l.table.occupied(), 0);
    assert!(matches!(l.complete(q.key, FetchOutcome::Missing, 3), Completion::NotInFlight));
}

#[test]
fn worker_pool_is_bounded() {
    let mut l = TileLayer::new(SourceDescriptor::new("http://h", ImageFormat::Png, 1), 4, 2, 0);
    assert!(l.issue(0).is_some());
    assert!(l.issue(0).is_some());
    assert!(l.issue(0).is_none());
    assert_eq!(l.queue.pending_len(), 10);
}

#[test]
fn all_pinned_defers_and_requeues() {
    let mut l = layer(ImageFormat::Png, 1);
    let png = vec![137, 80, 78, 71, 13, 10, 26, 10];
    let (q0, _) = l.issue(0).unwrap();
    assert!(matches!(l.complete(q0.key, FetchOutcome::Payload(png.clone()), 0), Completion::Stored { .. }));
    let (q1, _) = l.issue(0).unwrap();
    assert!(matches!(l.complete(q1.key, FetchOutcome::Payload(png), 1), Completion::Deferred));
    assert_eq!(l.queue.pending_len(), 11);
    assert!(l.queue.contains(&q1.key));
}

#[test]
fn first_calibration_wins() {
    let mut l = TileLayer::new(SourceDescriptor::new("http://h", ImageFormat::Fits, 1), 4, 4, 0);
    let a = fits_payload(&["BITPIX  = 8", "NAXIS1  = 1", "NAXIS2  = 1", "BSCALE  = 2"], &[1]);
    let b = fits_payload(&["BITPIX  = 8", "NAXIS1  = 1", "NAXIS2  = 1", "BSCALE  = 3"], &[1]);
    let (q0, _) = l.issue(0).unwrap();
    let (q1, _) = l.issue(0).unwrap();
    assert!(matches!(l.complete(q0.key, FetchOutcome::Payload(a), 0), Completion::Stored { .. }));
    assert!(matches!(l.complete(q1.key, FetchOutcome::Payload(b), 0), Completion::Stored { .. }));
    assert_eq!(l.calibration.unwrap().scale, Decimal { mantissa: 2, scale: 0 });
}

#[test]
fn texture_sub_image_writes_rectangle() {
    let t = Texture2DArray::create_empty(3, 2, 2, 1);
    assert_eq!(t.num_slices(), 2);
    assert_eq!(t.slice(1), &vec![0; 6]);
    let mut b = t.bind();
    b.tex_sub_image_3d_with_opt_u8_array(1, 0, 1, 2, 2, Some(&[1, 2, 3, 4]));
    b.tex_sub_image_3d_with_opt_u8_array(0, 0, 0, 1, 1, None);
    let t = b.unbind();
    assert_eq!(t.slice(1), &vec![0, 1, 2, 0, 3, 4]);
    assert_eq!(t.slice(0), &vec![0; 6]);
}

#[test]
fn texture_multi_byte_texels() {
    let t = Texture2DArray::create_empty(2, 1, 1, 2);
    let mut b = t.bind();
    b.tex_sub_image_3d_with_opt_u8_array(1, 0, 0, 1, 1, Some(&[7, 8]));
    assert_eq!(b.unbind().slice(0), &vec![0, 0, 7, 8]);
}

#[test]
fn executor_runs_within_budget_and_resumes() {
    let mut ex = Executor::new();
    let a = ex.spawn(vec![5, 3, 9, 1]);
    let b = ex.spawn(vec![2, 1]);
    assert_eq!((a, b), (0, 1));
    assert_eq!(ex.tick(3), 3);
    assert!(ex.take_finished().is_empty());
    let ran = ex.tick(100);
    assert_eq!(ran, 3);
    let done = ex.take_finished();
    assert_eq!(done, vec![(0, vec![1, 3, 5, 9]), (1, vec![1, 2])]);
    assert_eq!(ex.tick(10), 0);
}

#[test]
fn sort_job_steps() {
    let mut j = SortJob::new(vec![3, 1, 2]);
    assert!(!j.is_finished());
    j.step();
    j.step();
    j.step();
    assert!(j.is_finished());
    j.step();
    assert_eq!(j.into_result(), vec![1, 2, 3]);
}

#[test]
fn worker_lifecycle() {
    let src = SourceDescriptor::new("http://h", ImageFormat::Png, 1);
    let mut w = TileRequest::new(0);
    assert!(w.is_ready());
    let url = w.send(key(cell(8, 20000), 0), &src, 7);
    assert_eq!(String::from_utf8(url).unwrap(), "http://h/Norder8/Dir20000/Npix20000.png");
    assert!(!w.is_ready());
    assert!(!w.is_resolved());
    assert_eq!(w.get_cell(), cell(8, 20000));
    assert_eq!(w.get_time_request(), 7);
    w.resolve(false);
    assert_eq!(w.resolve_status(), ResolvedStatus::Missing);
    assert!(w.is_resolved());
    w.resolve(true);
    let png = vec![137, 80, 78, 71, 13, 10, 26, 10];
    assert!(matches!(w.get_image(&png, &src), Ok(TileImage::Raster { .. })));
    w.set_ready();
    assert!(w.is_ready());
    w.clear(9);
    assert_eq!(w.resolve_status(), ResolvedStatus::NotResolved);
    assert_eq!(w.get_time_request(), 9);
}

#[test]
fn typed_buffers() {
    let b = ArrayU8::new(&[1, 2, 3]);
    assert_eq!(b.to_vec(), vec![1, 2, 3]);
    let e = ArrayI16::empty(3, -1);
    assert_eq!(e.to_vec(), vec![-1, -1, -1]);
    let t: TileArrayBuffer<ArrayU8> = TileArrayBuffer::new(&[0, 1, 2, 3], 2, 1);
    assert_eq!(t.buf.to_vec(), vec![0, 1, 2, 3]);
    let t: TileArrayBuffer<ArrayI16> = TileArrayBuffer::blank(2, 2, 7);
    assert_eq!(t.buf.to_vec(), vec![7; 8]);
}

#[test]
fn encoded_payload_decodes_to_same_calibration() {
    let cal = Calibration {
        scale: Decimal { mantissa: -123456789, scale: 7 },
        offset: Decimal { mantissa: 32768, scale: 0 },
        blank: Some(-2147483648),
    };
    let pixels: Vec<u8> = (0..4 * 4 * 4).map(|i| (i * 7) as u8).collect();
    let p = encode_array(PixelType::I32, 4, cal, &pixels);
    assert_eq!(p.len() % 2880, 0);
    assert_eq!(&p[0..30], b"BITPIX  = 32                  ");
    assert_eq!(&p[240..262], b"BSCALE  = -12.3456789 ");
    match decode(&p, ImageFormat::Fits, 4) {
        Ok(TileImage::Array { pixel, width, pixels: px, calibration }) => {
            assert_eq!(pixel, PixelType::I32);
            assert_eq!(width, 4);
            assert_eq!(px, pixels);
            assert_eq!(calibration, cal);
        }
        other => panic!("unexpected {:?}", other),
    }
    let cal = Calibration { scale: Decimal { mantissa: 1, scale: 0 }, offset: Decimal { mantissa: 5, scale: 1 }, blank: None };
    let p = encode_array(PixelType::U8, 1, cal, &[200]);
    match decode(&p, ImageFormat::Fits, 1) {
        Ok(TileImage::Array { calibration, pixels, .. }) => {
            assert_eq!(calibration, cal);
            assert_eq!(pixels, vec![200]);
        }
        other => panic!("unexpected {:?}", other),
    }
}

#[test]
fn debounce_and_timeout_decisions() {
    assert!(!should_look_for_tiles(true, 1000, 1200));
    assert!(should_look_for_tiles(true, 1000, 1201));
    assert!(!should_look_for_tiles(false, 1000, 5000));
    assert!(!should_look_for_tiles(true, 1000, 10));
    assert!(may_fetch(0, false, 101));
    assert!(!may_fetch(0, false, 100));
    assert!(!may_fetch(0, true, 1000));
    assert!(timed_out(5, 10005));
    assert!(!timed_out(5, 10004));
    let src = SourceDescriptor::new("http://h", ImageFormat::Png, 1);
    let mut w = TileRequest::new(0);
    assert!(!w.is_timed_out(1_000_000));
    w.send(key(cell(1, 1), 0), &src, 100);
    assert!(!w.is_timed_out(5000));
    assert!(w.is_timed_out(10100));
    w.resolve(true);
    assert!(!w.is_timed_out(20000));
}

#[test]
fn failing_unit_does_not_stop_the_next() {
    // empty primary unit
    let mut p = fits_payload(&["SIMPLE  = T", "BITPIX  = 8", "NAXIS   = 0"], &[]);
    // a 3 x 1 image
    p.extend(fits_payload(&["XTENSION= 'IMAGE   '", "BITPIX  = 8", "NAXIS   = 2", "NAXIS1  = 3", "NAXIS2  = 1"], &[1, 2, 3]));
    // a 64-bit float image: not decodable, but its length is known
    p.extend(fits_payload(&["XTENSION= 'IMAGE   '", "BITPIX  = -64", "NAXIS   = 2", "NAXIS1  = 2", "NAXIS2  = 2"], &[0; 32]));
    // a table with a heap
    p.extend(fits_payload(
        &["XTENSION= 'BINTABLE'", "BITPIX  = 8", "NAXIS   = 2", "NAXIS1  = 4", "NAXIS2  = 1", "PCOUNT  = 6", "GCOUNT  = 1"],
        &[0; 10],
    ));
    // a cube
    p.extend(fits_payload(&["XTENSION= 'IMAGE   '", "BITPIX  = 8", "NAXIS   = 3", "NAXIS1  = 2", "NAXIS2  = 2", "NAXIS3  = 2"], &[0; 8]));
    // a 1 x 1 16-bit image
    p.extend(fits_payload(
        &["XTENSION= 'IMAGE   '", "BITPIX  = 16", "NAXIS   = 2", "NAXIS1  = 1", "NAXIS2  = 1", "BZERO   = 7"],
        &[0, 9],
    ));
    let r = decode_units(&p);
    assert_eq!(r.len(), 6);
    assert_eq!(r[0].as_ref().unwrap_err(), &DecodeError::BadDimensions);
    let u = r[1].as_ref().unwrap();
    assert_eq!((u.pixel, u.width, u.height), (PixelType::U8, 3, 1));
    assert_eq!(u.pixels, vec![1, 2, 3]);
    assert_eq!(r[2].as_ref().unwrap_err(), &DecodeError::BadPixelType);
    assert_eq!(r[3].as_ref().unwrap_err(), &DecodeError::NotImage);
    assert_eq!(r[4].as_ref().unwrap_err(), &DecodeError::BadDimensions);
    let u = r[5].as_ref().unwrap();
    assert_eq!((u.pixel, u.width, u.height), (PixelType::I16, 1, 1));
    assert_eq!(u.pixels, vec![0, 9]);
    assert_eq!(u.calibration.offset, Decimal { mantissa: 7, scale: 0 });
    // an unreadable header ends the payload
    let mut q = fits_payload(&["BITPIX  = 8", "NAXIS   = 2", "NAXIS1  = 1", "NAXIS2  = 1"], &[5]);
    q.extend(card("BITPIX  = 8"));
    let r = decode_units(&q);
    assert_eq!(r.len(), 2);
    assert!(r[0].is_ok());
    assert_eq!(r[1].as_ref().unwrap_err(), &DecodeError::NoHeaderEnd);
    assert!(decode_units(&[]).is_empty());
}

#[test]
fn image_unit_has_its_own_size() {
    let p = fits_payload(&["BITPIX  = 32", "NAXIS   = 2", "NAXIS1  = 3", "NAXIS2  = 2"], &[1; 24]);
    let u = decode_image(&p).unwrap();
    assert_eq!((u.width, u.height, u.pixels.len()), (3, 2, 24));
    let short = fits_payload(&["BITPIX  = 32", "NAXIS   = 2", "NAXIS1  = 3", "NAXIS2  = 2"], &[]);
    assert_eq!(decode_image(&short[..2880]).unwrap_err(), DecodeError::Truncated);
}

#[test]
fn removed_layer_completions_are_dropped() {
    let mut e = TileEngine::new();
    let a = e.add_layer(SourceDescriptor::new("http://h/a", ImageFormat::Png, 1), 4, 4, 0);
    let b = e.add_layer(SourceDescriptor::new("http://h/b", ImageFormat::Png, 1), 4, 4, 0);
    assert_ne!(a, b);
    let (qa, url) = e.issue(a, 0).unwrap();
    assert_eq!(String::from_utf8(url).unwrap(), "http://h/a/Norder0/Dir0/Npix0.png");
    let (qb, _) = e.issue(b, 0).unwrap();
    assert!(e.remove_layer(a));
    assert!(!e.remove_layer(a));
    assert!(e.layer(a).is_none());
    assert!(matches!(e.complete(a, qa.key, FetchOutcome::Missing, 1), Completion::Discarded));
    assert!(matches!(e.complete(b, qb.key, FetchOutcome::Missing, 1), Completion::Missing));
    assert!(e.layer(b).unwrap().missing.contains(&cell(0, 0)));
    assert!(e.issue(a, 2).is_none());
}

#[test]
fn layer_url_change_through_registry() {
    let mut e = TileEngine::new();
    let id = e.add_layer(SourceDescriptor::new("http://h/old", ImageFormat::Png, 1), 4, 4, 0);
    let (q, _) = e.issue(id, 0).unwrap();
    assert!(e.set_layer_url(id, SourceDescriptor::new("http://h/new", ImageFormat::Png, 1), 1));
    assert!(!e.set_layer_url(99, SourceDescriptor::new("http://h/x", ImageFormat::Png, 1), 1));
    let png = vec![137, 80, 78, 71, 13, 10, 26, 10];
    assert!(matches!(e.complete(id, q.key, FetchOutcome::Payload(png), 2), Completion::Discarded));
    let l = e.layer(id).unwrap();
    assert_eq!(l.generation, 1);
    assert_eq!(l.queue.pending_len(), 12);
    assert!(e.request_view(id, &vec![cell(3, 3)], 0, 3));
    assert!(!e.request_view(7, &vec![cell(3, 3)], 0, 3));
    assert_eq!(e.layer(id).unwrap().queue.pending_len(), 13);
}

#[test]
fn idle_worker_names_no_cell() {
    let idle = Cell { depth: 0, index: 13 };
    let mut w = TileRequest::new(5);
    assert_eq!(w.get_cell(), idle);
    assert_eq!(w.get_time_request(), 5);
    assert!(Cell::new(0, 13).is_none());
    let src = SourceDescriptor::new("http://h", ImageFormat::Png, 1);
    w.send(key(cell(0, 0), 0), &src, 6);
    assert_eq!(w.get_cell(), cell(0, 0));
    w.clear(7);
    assert_eq!(w.get_cell(), idle);
    assert!(w.is_ready());
    assert_eq!(w.get_time_request(), 7);
}

#[test]
fn new_view_drops_previous_pending_but_base() {
    let mut l = layer(ImageFormat::Png, 4);
    l.request_view(&vec![cell(3, 1)], 0, 1);
    assert_eq!(l.queue.pending_len(), 13);
    assert!(l.queue.contains(&key(cell(3, 1), 0)));
    l.request_view(&vec![cell(3, 2)], 0, 2);
    assert_eq!(l.queue.pending_len(), 13);
    assert!(!l.queue.contains(&key(cell(3, 1), 0)));
    assert!(l.queue.contains(&key(cell(3, 2), 0)));
    // base requests come first, then the visible cell
    let mut l = TileLayer::new(SourceDescriptor::new("http://h/old", ImageFormat::Png, 1), 4, 100, 0);
    l.request_view(&vec![cell(3, 2)], 0, 2);
    let order: Vec<Priority> = (0..13).map(|_| l.issue(3).unwrap().0.priority).collect();
    assert!(order[..12].iter().all(|p| *p == Priority::Base));
    assert_eq!(order[12], Priority::Visible);
}

#[test]
fn view_queues_visible_then_prefetch_classes() {
    let mut l = layer(ImageFormat::Png, 4);
    drain_base(&mut l);
    l.request_view(&vec![cell(5, 1000), cell(5, 1001)], 0, 1);
    let mut l2 = TileLayer::new(SourceDescriptor::new("http://h/old", ImageFormat::Png, 1), 4, 100, 0);
    drain_base(&mut l2);
    l2.request_view(&vec![cell(5, 1000), cell(5, 1001)], 0, 1);
    let issued: Vec<(Cell, Priority)> = (0..3).map(|_| {
        let (q, _) = l2.issue(1).unwrap();
        (q.key.cell, q.priority)
    }).collect();
    assert_eq!(issued, vec![(cell(5, 1000), Priority::Visible), (cell(5, 1001), Priority::Visible), (cell(2, 15), Priority::Ancestor)]);
    assert_eq!(l.queue.pending_len(), 3);
}

#[test]
fn resident_wanted_tile_is_refreshed() {
    let mut l = layer(ImageFormat::Png, 2);
    drain_base(&mut l);
    l.request_view(&vec![cell(3, 5)], 0, 1);
    let (q, _) = l.issue(1).unwrap();
    let png = vec![137, 80, 78, 71, 13, 10, 26, 10];
    assert!(matches!(l.complete(q.key, FetchOutcome::Payload(png), 2), Completion::Stored { .. }));
    assert_eq!(l.table.slot(0).last_touch, 2);
    l.request_view(&vec![cell(3, 5)], 0, 50);
    assert_eq!(l.table.slot(0).last_touch, 50);
    l.request_view(&vec![cell(3, 6)], 0, 60);
    assert_eq!(l.table.slot(0).last_touch, 50);
    assert!(!l.table.slot(0).pinned);
}

#[test]
fn cutoff_values_are_percentiles() {
    let vals: Vec<i16> = (0..200).rev().map(|v| v as i16 - 100).collect();
    let t: TileArrayBuffer<ArrayI16> = TileArrayBuffer::new(&vals, 10, 2);
    assert_eq!(t.get_cutoff_values(), (-98, 98));
    let t: TileArrayBuffer<ArrayU8> = TileArrayBuffer::new(&[9], 1, 1);
    assert_eq!(t.get_cutoff_values(), (9, 9));
    let mut v = vec![5, -1, 3, 3];
    hips_tiles::buffer::sort_values(&mut v);
    assert_eq!(v, vec![-1, 3, 3, 5]);
}

#[test]
fn units_are_named_per_extension() {
    let name = b"img".to_vec();
    let r = name_units(&name, &vec![true, false, true, true]).unwrap();
    let names: Vec<(usize, String)> = r.into_iter().map(|(i, n)| (i, String::from_utf8(n).unwrap())).collect();
    assert_eq!(names, vec![(0, "img".to_string()), (2, "img_ext_1".to_string()), (3, "img_ext_2".to_string())]);
    assert!(name_units(&name, &vec![false, false]).is_none());
    assert!(name_units(&name, &vec![]).is_none());
}
