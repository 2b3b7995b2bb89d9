use spann_core::ivf::nearest_centroids;
use spann_core::ranking::{key_bits, score_key, IdWithScore, TopK};

fn key(x: f32) -> u32 {
    score_key(x.to_bits())
}

#[test]
fn score_keys_order_as_the_numbers_do() {
    let numbers = [
        f32::NEG_INFINITY,
        -1.0e30,
        -2.5,
        -1.0,
        -1.0e-30,
        -0.0,
        0.0,
        1.0e-30,
        1.0,
        1.732,
        2.5,
        1.0e30,
        f32::INFINITY,
    ];
    for i in 1..numbers.len() {
        assert!(key(numbers[i - 1]) < key(numbers[i]));
    }
}

#[test]
fn score_key_exact_values() {
    assert_eq!(score_key(0x0000_0000), 0x8000_0000);
    assert_eq!(score_key(0x8000_0000), 0x7fff_ffff);
    assert_eq!(score_key(0x3f80_0000), 0xbf80_0000);
    assert_eq!(score_key(0xbf80_0000), 0x407f_ffff);
    assert_eq!(score_key(0xffff_ffff), 0);
    assert_eq!(score_key(0x7fff_ffff), 0xffff_ffff);
}

#[test]
fn key_bits_inverts_score_key() {
    for bits in [0u32, 1, 0x3f80_0000, 0x7f80_0000, 0x8000_0000, 0xbf80_0000, 0xffff_ffff] {
        assert_eq!(key_bits(score_key(bits)), bits);
    }
    assert_eq!(f32::from_bits(key_bits(key(1.732))), 1.732);
}

#[test]
fn id_with_score_orders_by_score_then_id() {
    let a = IdWithScore { score: 1, id: 9 };
    let b = IdWithScore { score: 2, id: 0 };
    let c = IdWithScore { score: 2, id: 5 };
    assert!(a.precedes(&b));
    assert!(b.precedes(&c));
    assert!(!c.precedes(&b));
    assert!(b.precedes(&b));
    assert!(a.ranks_before(&b));
    assert!(!b.ranks_before(&b));
    assert!(b.ranks_before(&c));
    // The derived order is the same one.
    assert!(a < b && b < c);
}

#[test]
fn top_k_keeps_the_best() {
    let mut top = TopK::new(3);
    let offered = [(5, 1), (2, 2), (9, 3), (2, 1), (7, 4), (1, 8), (2, 2)];
    for (score, id) in offered {
        top.offer(IdWithScore { score, id });
    }
    assert_eq!(top.len(), 3);
    assert_eq!(
        top.into_sorted(),
        vec![
            IdWithScore { score: 1, id: 8 },
            IdWithScore { score: 2, id: 1 },
            IdWithScore { score: 2, id: 2 },
        ]
    );
}

#[test]
fn top_k_with_fewer_candidates_returns_all() {
    let mut top = TopK::new(5);
    top.offer(IdWithScore { score: 4, id: 0 });
    top.offer(IdWithScore { score: 3, id: 1 });
    assert_eq!(top.len(), 2);
    assert_eq!(
        top.into_sorted(),
        vec![IdWithScore { score: 3, id: 1 }, IdWithScore { score: 4, id: 0 }]
    );
}

#[test]
fn top_k_of_nothing_is_empty() {
    let mut top = TopK::new(0);
    top.offer(IdWithScore { score: 4, id: 0 });
    assert_eq!(top.len(), 0);
    assert!(top.into_sorted().is_empty());
    assert!(TopK::new(4).into_sorted().is_empty());
}

#[test]
fn nearest_centroids_breaks_ties_by_number() {
    let scores = vec![7, 3, 9, 3, 1];
    assert_eq!(nearest_centroids(&scores, 3), vec![4, 1, 3]);
    assert_eq!(nearest_centroids(&scores, 1), vec![4]);
    assert_eq!(nearest_centroids(&scores, 0), Vec::<usize>::new());
    assert_eq!(nearest_centroids(&scores, 9), vec![4, 1, 3, 0, 2]);
}
