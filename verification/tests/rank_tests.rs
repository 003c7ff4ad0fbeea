use vpack_engine::rank::{key_of_score, top_ranked};

fn bits(values: &[f32]) -> Vec<u32> {
    values.iter().map(|x| x.to_bits()).collect()
}

#[test]
fn higher_scores_come_first() {
    let scores = bits(&[0.1, 0.9, 0.5, -0.3]);
    assert_eq!(top_ranked(&scores, &vec![true; 4], 10), vec![1, 2, 0, 3]);
}

#[test]
fn equal_scores_keep_their_stored_order() {
    let scores = bits(&[0.5, 0.7, 0.5, 0.7, 0.5]);
    assert_eq!(top_ranked(&scores, &vec![true; 5], 10), vec![1, 3, 0, 2, 4]);
}

#[test]
fn the_two_zeros_rank_alike() {
    let scores = bits(&[-0.0, 0.0, -0.0]);
    assert_eq!(top_ranked(&scores, &vec![true; 3], 10), vec![0, 1, 2]);
}

#[test]
fn a_nan_comes_after_every_number() {
    let scores = bits(&[f32::NAN, f32::NEG_INFINITY, 1.0, f32::NAN, f32::INFINITY]);
    assert_eq!(top_ranked(&scores, &vec![true; 5], 10), vec![4, 2, 1, 0, 3]);
    assert!(key_of_score(f32::NAN.to_bits()) < key_of_score(f32::NEG_INFINITY.to_bits()));
    assert_eq!(key_of_score(f32::NAN.to_bits()), key_of_score(0xffff_ffff));
}

#[test]
fn the_ranking_is_cut_to_top_k() {
    let scores = bits(&[0.1, 0.9, 0.5, 0.7, 0.3]);
    let all = vec![true; 5];
    assert_eq!(top_ranked(&scores, &all, 0), Vec::<usize>::new());
    assert_eq!(top_ranked(&scores, &all, 1), vec![1]);
    assert_eq!(top_ranked(&scores, &all, 3), vec![1, 3, 2]);
    assert_eq!(top_ranked(&scores, &all, 5), vec![1, 3, 2, 4, 0]);
    assert_eq!(top_ranked(&scores, &all, usize::MAX), vec![1, 3, 2, 4, 0]);
}

#[test]
fn only_eligible_items_are_ranked() {
    let scores = bits(&[0.1, 0.9, 0.5, 0.7, 0.3]);
    let some = vec![true, false, true, false, true];
    assert_eq!(top_ranked(&scores, &some, 10), vec![2, 4, 0]);
    assert_eq!(top_ranked(&scores, &some, 2), vec![2, 4]);
    assert_eq!(top_ranked(&scores, &vec![false; 5], 10), Vec::<usize>::new());
    assert_eq!(top_ranked(&[], &Vec::new(), 10), Vec::<usize>::new());
}

#[test]
fn the_ranking_agrees_with_a_stable_sort() {
    let mut x: u32 = 0x2545_f491;
    for round in 0..200 {
        let n = round % 17;
        let mut scores = Vec::new();
        let mut eligible = Vec::new();
        for _ in 0..n {
            x ^= x << 13;
            x ^= x >> 17;
            x ^= x << 5;
            scores.push((((x % 7) as f32) - 3.0).to_bits());
            eligible.push(x % 5 != 0);
        }
        let top_k = (x % 9) as usize;
        let mut expected: Vec<usize> = (0..n as usize).filter(|i| eligible[*i]).collect();
        expected.sort_by(|a, b| {
            f32::from_bits(scores[*b]).partial_cmp(&f32::from_bits(scores[*a])).unwrap()
        });
        expected.truncate(top_k);
        assert_eq!(top_ranked(&scores, &eligible, top_k), expected);
    }
}
