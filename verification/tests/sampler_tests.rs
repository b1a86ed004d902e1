use declutter::hash::fnv1a_tagged;
use declutter::sampler::grid_side;
use declutter::sampler::sample_viewport;
use declutter::sampler::ViewportGrid;
use declutter::sampler::TAG_CELL;
use declutter::sampler::TAG_POINT;

// The floating-point work a caller performs before sampling: binning the
// coordinates into the coarse grid and turning each populated cell's
// exponential weighted-sampling key into an order-preserving rank.

fn order_bits(x: f64) -> u64 {
    let b = x.to_bits();
    if b & 0x8000_0000_0000_0000 != 0 {
        !b
    } else {
        b | 0x8000_0000_0000_0000
    }
}

fn bin_points(
    coords: &[f64],
    n: usize,
    min_lat: f64,
    max_lat: f64,
    min_lng: f64,
    max_lng: f64,
    side: usize,
) -> Vec<Option<u32>> {
    let lat_step = (max_lat - min_lat) / side as f64;
    let lng_step = (max_lng - min_lng) / side as f64;
    let mut bins = Vec::with_capacity(n);
    for i in 0..n {
        let lat = coords[2 * i];
        let lng = coords[2 * i + 1];
        if !lat.is_finite() || !lng.is_finite() {
            bins.push(None);
            continue;
        }
        if lat < min_lat || lat > max_lat || lng < min_lng || lng > max_lng {
            bins.push(None);
            continue;
        }
        let x_raw = ((lng - min_lng) / lng_step).floor();
        let y_raw = ((lat - min_lat) / lat_step).floor();
        if !x_raw.is_finite() || !y_raw.is_finite() {
            bins.push(None);
            continue;
        }
        let x = (x_raw as i64).clamp(0, side as i64 - 1) as usize;
        let y = (y_raw as i64).clamp(0, side as i64 - 1) as usize;
        bins.push(Some((y * side + x) as u32));
    }
    bins
}

fn cell_ranks(bins: &[Option<u32>], side: usize, seed: u32) -> Vec<u64> {
    let mut counts = vec![0usize; side * side];
    for b in bins {
        if let Some(c) = b {
            counts[*c as usize] += 1;
        }
    }
    let mut ranks = vec![0u64; side * side];
    for (key, count) in counts.iter().enumerate() {
        if *count > 0 {
            let w = *count as f64;
            let h = fnv1a_tagged(seed, TAG_CELL, key as u32);
            let u = (h as f64 + 1.0) / 4294967296.0;
            ranks[key] = order_bits(u.ln() / w);
        }
    }
    ranks
}

fn prepare(coords: &[f64], ids: &[u32], bbox: [f64; 4], slots: usize, seed: u32) -> ViewportGrid {
    let side = grid_side(slots);
    let bins = bin_points(coords, ids.len(), bbox[0], bbox[1], bbox[2], bbox[3], side);
    let ranks = cell_ranks(&bins, side, seed);
    ViewportGrid { side: side as u32, bins, cell_ranks: ranks }
}

fn lcg_points(count: usize) -> Vec<f64> {
    let mut s: u64 = 123456789;
    let mut coords = Vec::with_capacity(2 * count);
    for _ in 0..2 * count {
        s = (1103515245u64.wrapping_mul(s).wrapping_add(12345)) % 0x8000_0000;
        coords.push(s as f64 / 0x8000_0000u64 as f64 * 10.0);
    }
    coords
}

#[test]
fn zero_slots_yield_nothing() {
    let r = sample_viewport(&[1, 2, 3], 0, 42, None);
    assert!(r.is_empty());
}

#[test]
fn empty_input_yields_nothing() {
    let r = sample_viewport(&[], 5, 42, None);
    assert!(r.is_empty());
}

#[test]
fn small_input_is_returned_whole_in_order() {
    let r = sample_viewport(&[10, 20, 30], 5, 42, None);
    assert_eq!(r, vec![0, 1, 2]);
}

#[test]
fn fallback_takes_lowest_scores_in_score_order() {
    let ids: Vec<u32> = (0..50).collect();
    let r = sample_viewport(&ids, 10, 1, None);
    assert_eq!(r.len(), 10);
    // Expected: the ten indices with the smallest (score, index) keys,
    // ascending.
    let mut scored: Vec<(u32, u32)> =
        ids.iter().enumerate().map(|(i, id)| (fnv1a_tagged(1, TAG_POINT, *id), i as u32)).collect();
    scored.sort();
    let expected: Vec<u32> = scored.iter().take(10).map(|p| p.1).collect();
    assert_eq!(r, expected);
}

#[test]
fn identical_calls_give_identical_output() {
    let ids: Vec<u32> = (0..50).collect();
    let a = sample_viewport(&ids, 10, 7, None);
    let b = sample_viewport(&ids, 10, 7, None);
    assert_eq!(a, b);

    let coords = lcg_points(100);
    let g1 = prepare(&coords, &ids, [0.0, 10.0, 0.0, 10.0], 10, 7);
    let g2 = prepare(&coords, &ids, [0.0, 10.0, 0.0, 10.0], 10, 7);
    let a = sample_viewport(&ids[..50], 10, 7, Some(&g1));
    let b = sample_viewport(&ids[..50], 10, 7, Some(&g2));
    assert_eq!(a, b);
}

#[test]
fn changing_the_seed_changes_the_selection() {
    let ids: Vec<u32> = (0..50).collect();
    let a = sample_viewport(&ids, 10, 1, None);
    let b = sample_viewport(&ids, 10, 2, None);
    assert_ne!(a, b);
}

#[test]
fn grid_side_is_clamped_and_rounded() {
    assert_eq!(grid_side(0), 8);
    assert_eq!(grid_side(20), 8); // round(sqrt(20) * 1.15) = 5, clamped up
    assert_eq!(grid_side(100), 12); // round(11.5) rounds half up
    assert_eq!(grid_side(10000), 64); // round(115) clamped down
}

#[test]
fn dense_viewport_uses_exactly_slots_distinct_cells() {
    // 100 pseudo-random points in a 10-by-10 box, 20 slots, seed 42: the
    // grid side is 8 and more than 20 cells are populated, so the result is
    // exactly 20 points from 20 distinct cells.
    let slots = 20;
    let seed = 42;
    let ids: Vec<u32> = (0..100).collect();
    let coords = lcg_points(100);
    assert_eq!(grid_side(slots), 8);
    let grid = prepare(&coords, &ids, [0.0, 10.0, 0.0, 10.0], slots, seed);
    let populated: std::collections::HashSet<u32> =
        grid.bins.iter().flatten().copied().collect();
    assert!(populated.len() >= slots);

    let r = sample_viewport(&ids, slots, seed, Some(&grid));
    assert_eq!(r.len(), slots);
    let mut cells_hit = std::collections::HashSet::new();
    let mut indices = std::collections::HashSet::new();
    for &i in &r {
        assert!(indices.insert(i), "duplicate index");
        let cell = grid.bins[i as usize].expect("selected point must be binned");
        assert!(cells_hit.insert(cell), "two points from one cell");
    }
    assert_eq!(cells_hit.len(), slots);
}

#[test]
fn sparse_viewport_covers_every_populated_cell() {
    // 30 points in four tight clusters, 8 slots: only four cells are
    // populated, so each contributes its best point before extras are
    // granted, and the result fills all eight slots.
    let slots = 8;
    let seed = 9;
    let ids: Vec<u32> = (0..30).collect();
    let mut coords = Vec::new();
    let centers = [(1.0, 1.0), (1.0, 9.0), (9.0, 1.0), (9.0, 9.0)];
    for i in 0..30 {
        let (clat, clng) = centers[i % 4];
        coords.push(clat + (i as f64) * 0.001);
        coords.push(clng + (i as f64) * 0.001);
    }
    let grid = prepare(&coords, &ids, [0.0, 10.0, 0.0, 10.0], slots, seed);
    let populated: std::collections::HashSet<u32> =
        grid.bins.iter().flatten().copied().collect();
    assert!(populated.len() < slots);

    let r = sample_viewport(&ids, slots, seed, Some(&grid));
    assert_eq!(r.len(), slots);
    let mut indices = std::collections::HashSet::new();
    let mut cells_hit = std::collections::HashSet::new();
    for &i in &r {
        assert!(indices.insert(i), "duplicate index");
        cells_hit.insert(grid.bins[i as usize].expect("selected point must be binned"));
    }
    assert_eq!(cells_hit, populated, "every populated cell is represented");
}

#[test]
fn output_length_never_exceeds_slots() {
    let ids: Vec<u32> = (0..100).collect();
    let coords = lcg_points(100);
    for slots in [1usize, 3, 20, 50, 99] {
        let grid = prepare(&coords, &ids, [0.0, 10.0, 0.0, 10.0], slots, 5);
        let r = sample_viewport(&ids, slots, 5, Some(&grid));
        assert!(r.len() <= slots);
    }
}

#[test]
fn sparse_viewport_returns_every_binned_point_when_they_fit() {
    // 30 points, but only six lie inside the bounding box, in two cells:
    // with 10 slots the sampler must return exactly those six.
    let slots = 10;
    let seed = 3;
    let ids: Vec<u32> = (0..30).collect();
    let mut coords = Vec::new();
    for i in 0..30 {
        if i < 6 {
            let (clat, clng) = if i % 2 == 0 { (1.0, 1.0) } else { (9.0, 9.0) };
            coords.push(clat + (i as f64) * 0.001);
            coords.push(clng + (i as f64) * 0.001);
        } else {
            coords.push(50.0 + i as f64);
            coords.push(50.0 + i as f64);
        }
    }
    let grid = prepare(&coords, &ids, [0.0, 10.0, 0.0, 10.0], slots, seed);
    let binned: Vec<u32> =
        (0..30u32).filter(|i| grid.bins[*i as usize].is_some()).collect();
    assert_eq!(binned, vec![0, 1, 2, 3, 4, 5]);

    let mut r = sample_viewport(&ids, slots, seed, Some(&grid));
    assert_eq!(r.len(), 6);
    r.sort();
    assert_eq!(r, binned);
}
