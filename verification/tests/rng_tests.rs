use calibron::rng::{shuffle, Rng};

#[test]
fn generator_gives_the_published_splitmix_values() {
    let mut rng = Rng::new(1234567);
    let drawn: Vec<u64> = (0..5).map(|_| rng.next_u64()).collect();
    assert_eq!(
        drawn,
        vec![
            6457827717110365317,
            3203168211198807973,
            9817491932198370423,
            4593380528125082431,
            16408922859458223821
        ]
    );
    let mut zero = Rng::new(0);
    let drawn: Vec<u64> = (0..3).map(|_| zero.next_u64()).collect();
    assert_eq!(drawn, vec![16294208416658607535, 7960286522194355700, 487617019471545679]);
}

#[test]
fn below_reduces_the_draw_by_the_bound() {
    let mut rng = Rng::new(42);
    let drawn: Vec<usize> = (0..6).map(|_| rng.below(10)).collect();
    assert_eq!(drawn, vec![3, 1, 8, 4, 0, 2]);
    let mut follow = Rng::new(13064056694810536104);
    assert_eq!(rng.next_u64(), follow.next_u64());
}

#[test]
fn below_one_is_always_zero() {
    let mut rng = Rng::new(99);
    for _ in 0..20 {
        assert_eq!(rng.below(1), 0);
    }
}

#[test]
fn below_stays_under_the_bound() {
    let mut rng = Rng::new(7);
    for bound in 1..200 {
        assert!(rng.below(bound) < bound);
    }
    assert!(rng.below(usize::MAX) < usize::MAX);
}

#[test]
fn shuffle_gives_the_expected_order_for_a_seed() {
    let mut items: Vec<usize> = (0..8).collect();
    let mut rng = Rng::new(7);
    shuffle(&mut items, &mut rng);
    assert_eq!(items, vec![1, 4, 5, 2, 6, 0, 3, 7]);
    let mut follow = Rng::new(6018027440424182938);
    assert_eq!(rng.next_u64(), follow.next_u64());

    let mut items: Vec<usize> = (0..5).collect();
    let mut rng = Rng::new(2024);
    shuffle(&mut items, &mut rng);
    assert_eq!(items, vec![3, 4, 0, 2, 1]);
}

#[test]
fn shuffle_is_reproducible() {
    for seed in [0, 1, 5, 1 << 40, u64::MAX] {
        let mut first: Vec<usize> = (10..30).collect();
        let mut second = first.clone();
        shuffle(&mut first, &mut Rng::new(seed));
        shuffle(&mut second, &mut Rng::new(seed));
        assert_eq!(first, second);
    }
}

#[test]
fn shuffle_keeps_every_item() {
    for seed in 0..50 {
        let mut items: Vec<usize> = vec![4, 4, 9, 0, 7, 7, 7, 2];
        shuffle(&mut items, &mut Rng::new(seed));
        items.sort();
        assert_eq!(items, vec![0, 2, 4, 4, 7, 7, 7, 9]);
    }
}

#[test]
fn shuffle_of_one_or_no_item_draws_nothing() {
    let mut rng = Rng::new(11);
    let mut none: Vec<usize> = Vec::new();
    shuffle(&mut none, &mut rng);
    assert!(none.is_empty());
    let mut one = vec![3];
    shuffle(&mut one, &mut rng);
    assert_eq!(one, vec![3]);
    assert_eq!(rng.next_u64(), Rng::new(11).next_u64());
}
