use spaceinsight::partition::partition_children;

fn sorted_sizes(sizes: &[u64]) -> Vec<u64> {
    let mut v = sizes.to_vec();
    v.sort_by(|a, b| b.cmp(a));
    v
}

#[test]
fn test_dominant_item_small_aggregate() {
    let mut sizes = vec![9000, 900];
    for _ in 0..20 {
        sizes.push(5);
    }
    let children = sorted_sizes(&sizes);
    let total: u64 = children.iter().sum();
    let container_area = 936_000;

    let (kept, agg) = partition_children(&children, total, container_area);
    let agg_size: u64 = agg.iter().map(|&i| children[i]).sum();
    let agg_frac = agg_size as f32 / total as f32;

    assert!(kept.len() >= 2, "Should keep at least the 2 large items, got {}", kept.len());
    assert!(agg_frac <= 0.08 + 0.01, "Aggregate fraction {:.1}% exceeds budget", agg_frac * 100.0);
}

#[test]
fn test_many_equal_items_aggregate_stays_small() {
    let sizes: Vec<u64> = vec![100; 50];
    let children = sorted_sizes(&sizes);
    let total: u64 = children.iter().sum();
    let container_area = 936_000;

    let (kept, agg) = partition_children(&children, total, container_area);
    let agg_size: u64 = agg.iter().map(|&i| children[i]).sum();
    let agg_frac = agg_size as f32 / total as f32;

    assert!(agg_frac <= 0.08 + 0.01, "Aggregate fraction {:.1}% exceeds budget", agg_frac * 100.0);
    assert!(kept.len() >= 1, "Should keep at least 1 item");
}

#[test]
fn test_few_items_no_aggregate() {
    let sizes = vec![5000, 3000, 2000];
    let children = sorted_sizes(&sizes);
    let total: u64 = children.iter().sum();
    let container_area = 936_000;

    let (kept, agg) = partition_children(&children, total, container_area);

    assert_eq!(kept.len(), 3);
    assert_eq!(agg.len(), 0);
}

#[test]
fn partition_covers_every_index_once() {
    let children = sorted_sizes(&[50, 40, 30, 20, 10, 9, 8, 7, 6, 5, 4, 3, 2, 1, 1, 1]);
    let total: u64 = children.iter().sum();
    let (kept, agg) = partition_children(&children, total, 10_000);
    let mut all: Vec<usize> = kept.iter().chain(agg.iter()).copied().collect();
    all.sort();
    assert_eq!(all, (0..children.len()).collect::<Vec<_>>());
    let agg_size: u64 = agg.iter().map(|&i| children[i]).sum();
    assert!(agg_size * 25 <= total * 2);
}

#[test]
fn equal_items_are_capped_then_rescued() {
    let children = vec![100u64; 50];
    let total = 5000;
    let (kept, agg) = partition_children(&children, total, 936_000);
    // Twelve pass the count cap; the rescue brings back items until the
    // remaining aggregate is at most 8% of the total (4 items of 100).
    assert_eq!(kept, (0..46).collect::<Vec<_>>());
    assert_eq!(agg, (46..50).collect::<Vec<_>>());
}

#[test]
fn small_container_aggregates_tiny_items() {
    // In a 100 x 100 area, the minimum useful area is 400: items under 4% go.
    let children = vec![1000u64, 1000, 1000, 10, 10];
    let total = 3020;
    let (kept, agg) = partition_children(&children, total, 10_000);
    assert_eq!(kept, vec![0, 1, 2]);
    assert_eq!(agg, vec![3, 4]);
}

#[test]
fn single_child_is_always_kept() {
    let (kept, agg) = partition_children(&vec![0u64], 0, 100);
    assert_eq!(kept, vec![0]);
    assert!(agg.is_empty());
    let (kept, agg) = partition_children(&Vec::new(), 0, 100);
    assert!(kept.is_empty() && agg.is_empty());
}
