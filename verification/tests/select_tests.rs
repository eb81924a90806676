use rand::SeedableRng;
use wallrustler::select::{
    compute_total_weight, index_for_target, pick_index, pick_random_wallpaper, SelectError,
};
use wallrustler::wallpapers::Wallpaper;

fn wp(name: &str, count: usize) -> Wallpaper {
    Wallpaper { file_name: String::from(name), count }
}

#[test]
fn weight_of_fresh_entry_is_the_scale() {
    let ws = vec![wp("a.png", 0)];
    assert_eq!(compute_total_weight(&ws), 1_000_000_000);
}

#[test]
fn weights_decay_by_a_thousandth_per_show() {
    // 1_000_000_000 / 1.001, floored, once and twice.
    let once = vec![wp("a.png", 1)];
    assert_eq!(compute_total_weight(&once), 999_000_999);
    let twice = vec![wp("a.png", 2)];
    assert_eq!(compute_total_weight(&twice), 998_002_996);
    let all = vec![wp("a.png", 0), wp("b.png", 1), wp("c.png", 2)];
    assert_eq!(compute_total_weight(&all), 1_000_000_000 + 999_000_999 + 998_002_996);
}

#[test]
fn weight_never_drops_below_one() {
    // After enough shows the fixed-point weight bottoms out at one.
    let ws = vec![wp("a.png", 30_000)];
    assert_eq!(compute_total_weight(&ws), 1);
}

#[test]
fn target_walk_picks_by_cumulative_weight() {
    let ws = vec![wp("a.png", 0), wp("b.png", 0), wp("c.png", 10)];
    let w = 1_000_000_000u128;
    assert_eq!(index_for_target(&ws, 0), 0);
    assert_eq!(index_for_target(&ws, w - 1), 0);
    assert_eq!(index_for_target(&ws, w), 1);
    assert_eq!(index_for_target(&ws, 2 * w - 1), 1);
    assert_eq!(index_for_target(&ws, 2 * w), 2);
    let total = compute_total_weight(&ws);
    assert_eq!(index_for_target(&ws, total - 1), 2);
}

#[test]
fn pick_increments_exactly_the_chosen_entry() {
    let before = vec![wp("a.png", 2), wp("b.png", 5), wp("c.png", 0)];
    let mut ws = before.iter().map(|w| wp(&w.file_name, w.count)).collect::<Vec<_>>();
    let name = pick_random_wallpaper(&mut ws).unwrap();
    let picked: Vec<usize> = (0..ws.len()).filter(|&i| ws[i].count != before[i].count).collect();
    assert_eq!(picked.len(), 1);
    let i = picked[0];
    assert_eq!(ws[i].file_name, name);
    assert_eq!(ws[i].count, before[i].count + 1);
    for j in 0..ws.len() {
        assert_eq!(ws[j].file_name, before[j].file_name);
        if j != i {
            assert_eq!(ws[j].count, before[j].count);
        }
    }
}

#[test]
fn pick_on_single_entry_returns_it() {
    let mut ws = vec![wp("only.png", 9)];
    let name = pick_random_wallpaper(&mut ws).unwrap();
    assert_eq!(name, "only.png");
    assert_eq!(ws[0].count, 10);
}

#[test]
fn pick_on_empty_collection_is_the_defined_error() {
    let mut ws: Vec<Wallpaper> = Vec::new();
    assert_eq!(pick_random_wallpaper(&mut ws), Err(SelectError::EmptyCatalog));
    assert!(ws.is_empty());
}

#[test]
fn sampling_favors_rarely_shown_entries() {
    // Counts [0, 0, 10] with the 1.001 decay: the two fresh entries should be
    // drawn near-equally often, and both more often than the stale one.
    let ws = vec![wp("a.png", 0), wp("b.png", 0), wp("c.png", 10)];
    let mut rng = rand_hc::Hc128Rng::from_entropy();
    let mut tallies = [0i64; 3];
    let draws = 1_000_000;
    for _ in 0..draws {
        let i = pick_index(&ws, &mut rng);
        assert!(i < 3);
        tallies[i] += 1;
    }
    assert_eq!(tallies[0] + tallies[1] + tallies[2], draws);
    // Near-equal for equal counts: the gap stays far below the ~0.1% bias.
    assert!((tallies[0] - tallies[1]).abs() < 6_000);
    // Both fresh entries beat the stale one, whose weight is about 1% lower.
    assert!(tallies[2] < tallies[0]);
    assert!(tallies[2] < tallies[1]);
}
