use gen_rp_rs::color::Color;
use gen_rp_rs::k_means::{
    assign, calculate_centroid, centroid_or, closest, dist_sq, k_means, k_means_capped,
    k_means_from, nearest,
    rand_point, random_palette, refit, respawn, respawn_on, round, same_palette, QuantizeError,
};

fn rgb(r: u8, g: u8, b: u8) -> Color {
    Color { r, g, b }
}

#[test]
fn dist_sq_of_a_colour_to_itself_is_zero() {
    assert_eq!(dist_sq(rgb(12, 34, 56), rgb(12, 34, 56)), 0);
}

#[test]
fn dist_sq_sums_the_squared_gaps() {
    assert_eq!(dist_sq(rgb(10, 20, 30), rgb(13, 16, 30)), 25);
    assert_eq!(dist_sq(rgb(13, 16, 30), rgb(10, 20, 30)), 25);
    assert_eq!(dist_sq(rgb(0, 0, 0), rgb(1, 2, 3)), 14);
}

#[test]
fn dist_sq_between_black_and_white() {
    assert_eq!(dist_sq(rgb(0, 0, 0), rgb(255, 255, 255)), 195075);
}

#[test]
fn closest_returns_the_nearest_entry() {
    let palette = vec![rgb(0, 0, 0), rgb(255, 255, 255), rgb(200, 10, 10)];
    assert_eq!(closest(rgb(190, 20, 5), &palette), rgb(200, 10, 10));
    assert_eq!(closest(rgb(10, 10, 10), &palette), rgb(0, 0, 0));
    assert_eq!(closest(rgb(250, 240, 250), &palette), rgb(255, 255, 255));
}

#[test]
fn closest_returns_a_member_of_the_palette() {
    let palette = vec![rgb(9, 8, 7), rgb(100, 0, 200), rgb(3, 250, 77), rgb(128, 128, 128)];
    for r in [0u8, 60, 130, 255] {
        for g in [0u8, 90, 255] {
            for b in [0u8, 127, 255] {
                let near = closest(rgb(r, g, b), &palette);
                assert!(palette.contains(&near));
                for entry in &palette {
                    assert!(dist_sq(rgb(r, g, b), near) <= dist_sq(rgb(r, g, b), *entry));
                }
            }
        }
    }
}

#[test]
fn nearest_prefers_the_earliest_of_equally_near_entries() {
    let palette = vec![rgb(50, 0, 0), rgb(10, 0, 0), rgb(30, 0, 0), rgb(10, 0, 0)];
    assert_eq!(nearest(rgb(20, 0, 0), &palette), 1);
    let twins = vec![rgb(0, 0, 10), rgb(0, 10, 0), rgb(10, 0, 0)];
    assert_eq!(nearest(rgb(0, 0, 0), &twins), 0);
    assert_eq!(closest(rgb(0, 0, 0), &twins), rgb(0, 0, 10));
}

#[test]
fn closest_looks_past_a_far_first_entry() {
    let palette = vec![rgb(255, 255, 255), rgb(255, 255, 0)];
    assert_eq!(dist_sq(rgb(0, 0, 0), palette[1]), 130050);
    assert_eq!(closest(rgb(0, 0, 0), &palette), rgb(255, 255, 0));
}

#[test]
fn closest_of_a_single_entry() {
    assert_eq!(closest(rgb(1, 2, 3), &[rgb(200, 200, 200)]), rgb(200, 200, 200));
}

#[test]
fn centroid_is_the_truncated_mean() {
    let points = vec![rgb(255, 0, 0), rgb(1, 0, 0)];
    assert_eq!(centroid_or(&points, None), Some(rgb(128, 0, 0)));
    let points = vec![rgb(1, 2, 3), rgb(2, 3, 5), rgb(2, 3, 5)];
    assert_eq!(centroid_or(&points, Some(rgb(9, 9, 9))), Some(rgb(1, 2, 4)));
}

#[test]
fn centroid_of_many_bright_points_does_not_wrap() {
    let points = vec![rgb(255, 255, 255); 70000];
    assert_eq!(centroid_or(&points, None), Some(rgb(255, 255, 255)));
}

#[test]
fn centroid_of_an_empty_cluster_is_the_replacement() {
    assert_eq!(centroid_or(&[], None), None);
    assert_eq!(centroid_or(&[], Some(rgb(4, 5, 6))), Some(rgb(4, 5, 6)));
}

#[test]
fn calculate_centroid_of_points_is_their_mean() {
    let points = vec![rgb(10, 20, 30), rgb(20, 40, 60), rgb(31, 0, 0)];
    assert_eq!(calculate_centroid(&points), Some(rgb(20, 20, 30)));
}

#[test]
fn calculate_centroid_of_nothing_respawns_or_drops() {
    let mut kept = 0;
    let mut dropped = 0;
    for _ in 0..400 {
        match calculate_centroid(&[]) {
            Some(_) => kept += 1,
            None => dropped += 1,
        }
    }
    assert!(kept > 0);
    assert!(dropped > kept);
}

#[test]
fn respawn_keeps_about_one_in_four() {
    let mut kept = 0;
    for _ in 0..4000 {
        if respawn().is_some() {
            kept += 1;
        }
    }
    assert!(kept > 800 && kept < 1200, "kept {kept} of 4000");
}

#[test]
fn rand_point_varies() {
    let first = rand_point();
    let mut differs = false;
    for _ in 0..64 {
        if rand_point() != first {
            differs = true;
        }
    }
    assert!(differs);
}

#[test]
fn random_palette_has_k_entries() {
    assert_eq!(random_palette(0).len(), 0);
    assert_eq!(random_palette(5).len(), 5);
}

#[test]
fn assign_sorts_points_by_nearest_centroid() {
    let centroids = vec![rgb(0, 0, 0), rgb(255, 255, 255)];
    let points = vec![rgb(10, 10, 10), rgb(250, 250, 250), rgb(20, 20, 20), rgb(128, 128, 128)];
    let clusters = assign(&points, &centroids, 3);
    assert_eq!(clusters.len(), 3);
    assert_eq!(clusters[0], vec![rgb(10, 10, 10), rgb(20, 20, 20)]);
    assert_eq!(clusters[1], vec![rgb(250, 250, 250), rgb(128, 128, 128)]);
    assert!(clusters[2].is_empty());
}

#[test]
fn assign_sends_ties_to_the_first_centroid() {
    let centroids = vec![rgb(0, 0, 0), rgb(20, 0, 0)];
    let clusters = assign(&[rgb(10, 0, 0)], &centroids, 2);
    assert_eq!(clusters[0], vec![rgb(10, 0, 0)]);
    assert!(clusters[1].is_empty());
}

#[test]
fn assign_without_points_leaves_every_bucket_empty() {
    let clusters = assign(&[], &[], 4);
    assert_eq!(clusters.len(), 4);
    assert!(clusters.iter().all(|c| c.is_empty()));
}

#[test]
fn refit_takes_the_mean_of_each_cluster() {
    let clusters = vec![
        vec![rgb(10, 10, 10), rgb(20, 20, 20)],
        vec![rgb(250, 250, 250)],
        vec![rgb(1, 2, 3), rgb(2, 2, 3)],
    ];
    assert_eq!(refit(&clusters), vec![rgb(15, 15, 15), rgb(250, 250, 250), rgb(1, 2, 3)]);
}

#[test]
fn refit_keeps_the_means_in_order_around_empty_clusters() {
    let clusters = vec![vec![rgb(10, 10, 10)], vec![], vec![rgb(30, 30, 30)]];
    let out = refit(&clusters);
    assert!(out.len() == 2 || out.len() == 3);
    assert_eq!(out[0], rgb(10, 10, 10));
    assert_eq!(out[out.len() - 1], rgb(30, 30, 30));
}

#[test]
fn round_moves_centroids_to_the_means() {
    let centroids = vec![rgb(0, 0, 0), rgb(255, 255, 255)];
    let points = vec![rgb(10, 10, 10), rgb(250, 250, 250), rgb(20, 20, 20)];
    let next = round(2, &points, &centroids);
    assert_eq!(next, vec![rgb(15, 15, 15), rgb(250, 250, 250)]);
    let again = round(2, &points, &next);
    assert_eq!(again, next);
}

#[test]
fn same_palette_compares_in_order() {
    let a = vec![rgb(1, 2, 3), rgb(4, 5, 6)];
    assert!(same_palette(&a, &a.clone()));
    assert!(!same_palette(&a, &vec![rgb(4, 5, 6), rgb(1, 2, 3)]));
    assert!(!same_palette(&a, &vec![rgb(1, 2, 3)]));
    assert!(same_palette(&Vec::new(), &Vec::new()));
}

#[test]
fn k_means_refuses_zero_clusters() {
    assert_eq!(k_means(0, &[rgb(1, 2, 3)]), Err(QuantizeError::InvalidArgument));
    assert_eq!(k_means(0, &[]), Err(QuantizeError::InvalidArgument));
    assert!(matches!(k_means_capped(0, &[rgb(1, 2, 3)], 10), Err(QuantizeError::InvalidArgument)));
}

#[test]
fn k_means_of_one_colour_with_one_cluster_is_that_colour() {
    let points = vec![rgb(10, 20, 30); 17];
    assert_eq!(k_means(1, &points), Ok(vec![rgb(10, 20, 30)]));
}

#[test]
fn k_means_of_one_colour_holds_that_colour() {
    let points = vec![rgb(200, 100, 50); 9];
    let palette = k_means(3, &points).unwrap();
    assert!(!palette.is_empty() && palette.len() <= 3);
    assert_eq!(closest(rgb(200, 100, 50), &palette), rgb(200, 100, 50));
}

#[test]
fn k_means_of_two_far_groups_with_one_cluster_is_the_overall_mean() {
    let mut points = vec![rgb(0, 0, 0); 4];
    points.extend(vec![rgb(200, 100, 50); 4]);
    assert_eq!(k_means(1, &points), Ok(vec![rgb(100, 50, 25)]));
}

#[test]
fn k_means_without_points_gives_at_most_k_colours() {
    let palette = k_means(2, &[]).unwrap();
    assert!(palette.len() <= 2);
}

#[test]
fn k_means_capped_without_rounds_is_not_converged() {
    let c = k_means_capped(4, &[rgb(1, 1, 1), rgb(200, 200, 200)], 0).unwrap();
    assert!(!c.converged);
    assert_eq!(c.palette.len(), 4);
}

#[test]
fn k_means_capped_converges_to_a_stable_palette() {
    let points = vec![rgb(10, 10, 10), rgb(20, 20, 20), rgb(240, 240, 240), rgb(250, 250, 250)];
    let c = k_means_capped(2, &points, 100000).unwrap();
    assert!(c.converged);
    assert!(!c.palette.is_empty() && c.palette.len() <= 2);
    let clusters = assign(&points, &c.palette, 2);
    let mut expected = Vec::new();
    for cluster in &clusters {
        if !cluster.is_empty() {
            expected.push(centroid_or(cluster, None).unwrap());
        }
    }
    for colour in &expected {
        assert!(c.palette.contains(colour));
    }
}

#[test]
fn k_means_capped_stops_at_its_cap() {
    let points = vec![rgb(10, 10, 10), rgb(250, 250, 250)];
    let c = k_means_capped(8, &points, 1).unwrap();
    assert!(!c.palette.is_empty() && c.palette.len() <= 8);
}

#[test]
fn k_means_from_two_groups_finds_their_means() {
    let points = vec![rgb(10, 10, 10), rgb(20, 20, 20), rgb(240, 240, 240), rgb(250, 250, 250)];
    let start = vec![rgb(0, 0, 0), rgb(255, 255, 255)];
    let c = k_means_from(2, &points, start, 10);
    assert!(c.converged);
    assert_eq!(c.palette, vec![rgb(15, 15, 15), rgb(245, 245, 245)]);
}

#[test]
fn k_means_from_without_rounds_returns_its_start() {
    let start = vec![rgb(1, 2, 3), rgb(4, 5, 6)];
    let c = k_means_from(2, &[rgb(9, 9, 9)], start.clone(), 0);
    assert!(!c.converged);
    assert_eq!(c.palette, start);
}

#[test]
fn k_means_from_needs_a_second_round_to_see_convergence() {
    let points = vec![rgb(10, 10, 10), rgb(250, 250, 250)];
    let start = vec![rgb(0, 0, 0), rgb(255, 255, 255)];
    let c = k_means_from(2, &points, start.clone(), 1);
    assert!(!c.converged);
    assert_eq!(c.palette, vec![rgb(10, 10, 10), rgb(250, 250, 250)]);
    let c = k_means_from(2, &points, start, 2);
    assert!(c.converged);
    assert_eq!(c.palette, vec![rgb(10, 10, 10), rgb(250, 250, 250)]);
}

#[test]
fn k_means_from_a_stable_start_converges_in_one_round() {
    let points = vec![rgb(10, 10, 10), rgb(250, 250, 250)];
    let c = k_means_from(2, &points, points.clone(), 1);
    assert!(c.converged);
    assert_eq!(c.palette, points);
}

#[test]
fn respawn_on_follows_the_coin() {
    for _ in 0..32 {
        assert!(respawn_on(true).is_some());
        assert!(respawn_on(false).is_none());
    }
}
