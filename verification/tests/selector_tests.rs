use declutter::selector::pick_non_overlapping_indices;

// Flat [x0, y0, x1, y1, ...] coordinate buffers in integer pixels.

fn pick(
    xy: &[i64],
    priority: &[u32],
    in_locked: &[u32],
    out_locked: &[u32],
    mask: &[u8],
    max_picks: usize,
    share_num: u64,
    share_den: u64,
    hard_cap: bool,
    min_sep_sq: u64,
    cell_size: i64,
) -> Vec<u32> {
    let usable = vec![true; xy.len() / 2];
    pick_non_overlapping_indices(
        xy, priority, in_locked, out_locked, mask, &usable, max_picks, share_num, share_den,
        hard_cap, min_sep_sq, cell_size,
    )
}

const FAR: [i64; 12] = [0, 0, 100, 0, 200, 0, 300, 0, 400, 0, 500, 0];

#[test]
fn zero_cap_returns_empty() {
    let r = pick(&FAR, &[0, 1, 2], &[], &[], &[], 0, 1, 2, false, 100, 10);
    assert!(r.is_empty());
}

#[test]
fn far_apart_points_are_all_accepted_in_order() {
    let r = pick(&FAR, &[2, 0, 1], &[], &[], &[], 10, 1, 2, false, 100, 10);
    assert_eq!(r, vec![2, 0, 1]);
}

#[test]
fn cap_limits_the_result() {
    let r = pick(&FAR, &[0, 1, 2, 3, 4, 5], &[], &[], &[], 2, 1, 2, false, 100, 10);
    assert_eq!(r, vec![0, 1]);
}

#[test]
fn close_neighbor_is_rejected() {
    // Points 0 and 1 are 5 pixels apart; separation requires 10.
    let xy = [0, 0, 5, 0, 200, 0];
    let r = pick(&xy, &[0, 1, 2], &[], &[], &[], 10, 1, 2, false, 100, 10);
    assert_eq!(r, vec![0, 2]);
}

#[test]
fn priority_order_wins_over_locked_orders() {
    // Candidates 0 and 1 overlap; the priority pass sees 1 first, so the
    // locked pass cannot place 0 any more.
    let xy = [0, 0, 5, 0];
    let r = pick(&xy, &[1], &[0], &[0], &[], 10, 1, 1, false, 100, 10);
    assert_eq!(r, vec![1]);
}

#[test]
fn duplicate_entries_in_orders_are_skipped() {
    let r = pick(&FAR, &[0, 0, 1, 1, 0], &[1, 0], &[], &[], 10, 1, 2, false, 100, 10);
    assert_eq!(r, vec![0, 1]);
}

#[test]
fn out_of_range_indices_are_ignored() {
    let r = pick(&FAR, &[99, 0, 1000000, 1], &[], &[], &[], 10, 1, 2, false, 100, 10);
    assert_eq!(r, vec![0, 1]);
}

#[test]
fn unusable_candidates_are_skipped() {
    let usable = [false, true, true, true, true, true];
    let r = pick_non_overlapping_indices(
        &FAR, &[0, 1, 2], &[], &[], &[], &usable, 10, 1, 2, false, 100, 10,
    );
    assert_eq!(r, vec![1, 2]);
}

#[test]
fn remaining_budget_is_split_between_locked_orders() {
    // The priority pass takes 0 and 1; of the remaining budget 2, half
    // (rounded) goes to the locked order, the rest to the outside order.
    let r = pick(&FAR, &[0, 1], &[2, 3], &[4, 5], &[], 4, 1, 2, false, 100, 10);
    assert_eq!(r, vec![0, 1, 2, 4]);
}

#[test]
fn locked_share_of_one_consumes_the_whole_remainder() {
    let r = pick(&FAR, &[0], &[1, 2, 3], &[4, 5], &[], 3, 1, 1, false, 100, 10);
    assert_eq!(r, vec![0, 1, 2]);
}

#[test]
fn hard_cap_limits_outsiders_to_the_locked_count() {
    // Nothing is flagged locked, so with the hard cap the outside order
    // gets no budget at all.
    let mask = [0u8; 6];
    let r = pick(&FAR, &[0, 1], &[2], &[3, 4], &mask, 6, 1, 2, true, 100, 10);
    assert_eq!(r, vec![0, 1, 2]);
}

#[test]
fn hard_cap_with_flagged_candidates_allows_outsiders() {
    // Candidate 2 is flagged; one accepted flagged candidate admits one
    // outsider.
    let mask = [0u8, 0, 1, 0, 0, 0];
    let r = pick(&FAR, &[0, 1], &[2], &[3, 4], &mask, 6, 1, 2, true, 100, 10);
    assert_eq!(r, vec![0, 1, 2, 3]);
}

#[test]
fn no_duplicates_and_cap_hold_on_a_dense_cluster() {
    // A 10-by-10 block of points two pixels apart with separation 3 pixels.
    let mut xy = Vec::new();
    for y in 0..10i64 {
        for x in 0..10i64 {
            xy.push(2 * x);
            xy.push(2 * y);
        }
    }
    let order: Vec<u32> = (0..100).collect();
    let r = pick(&xy, &order, &[], &[], &[], 30, 1, 2, false, 9, 3);
    assert!(r.len() <= 30);
    let mut seen = std::collections::HashSet::new();
    for &i in &r {
        assert!(seen.insert(i), "duplicate index in result");
    }
}

#[test]
fn locked_share_is_rounded_half_up() {
    // After the priority pass one slot is used, three remain; a half share
    // rounds 1.5 up, so the locked order gets two slots and the outside
    // order one.
    let r = pick(&FAR, &[0], &[1, 2, 3], &[4, 5], &[], 4, 1, 2, false, 100, 10);
    assert_eq!(r, vec![0, 1, 2, 4]);
}
