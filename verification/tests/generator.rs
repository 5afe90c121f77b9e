//! The random number generator and the layout of the parameters.
use microgpt::model::{Model, Shape, ShapeError};
use microgpt::rng::Rng;
use microgpt::train::{default_threads, TrainConfig};
use microgpt::wait::{order, Order, Poll, Wait, QUIT, SPIN_LIMIT};

#[test]
fn seeds_give_states() {
    assert_eq!(
        Rng::new(0).s,
        [0xe220a8397b1dcdaf, 0x6e789e6aa1b965f4, 0x06c45d188009454f, 0xf88bb8a8724c81ec]
    );
    assert_eq!(
        Rng::new(42).s,
        [0xbdd732262feb6e95, 0x28efe333b266f103, 0x47526757130f9f52, 0x581ce1ff0e4ae394]
    );
}

#[test]
fn outputs_follow_the_state() {
    let mut rng = Rng::new(0);
    assert_eq!(rng.next_u64(), 11091344671253066420);
    assert_eq!(rng.next_u64(), 13793997310169335082);
    assert_eq!(rng.next_u64(), 1900383378846508768);
    let mut rng = Rng::new(42);
    assert_eq!(rng.next_u64(), 1546998764402558742);
    assert_eq!(rng.next_u64(), 6990951692964543102);
    assert_eq!(rng.next_u64(), 12544586762248559009);
    assert_eq!(rng.next_u64(), 17057574109182124193);
    assert_eq!(
        rng.s,
        [0x6db07c7dd404690b, 0x81ddc5fe6c157698, 0x25cfe223490d9d1f, 0x9252543d113b0c36]
    );
}

#[test]
fn the_state_is_never_zero() {
    // a seed for which the first word of the state is zero
    let mut rng = Rng::new(0u64.wrapping_sub(0x9E37_79B9_7F4A_7C15));
    assert_eq!(rng.s[0], 0);
    for _ in 0..100 {
        assert_ne!(rng.s, [0; 4]);
        rng.next_u64();
    }
}

#[test]
fn shuffle_is_a_permutation() {
    let mut v: Vec<usize> = (0..10).collect();
    let mut rng = Rng::new(42);
    rng.shuffle(&mut v);
    assert_eq!(v, vec![7, 3, 8, 9, 5, 6, 4, 1, 0, 2]);
    assert_eq!(
        rng.s,
        [0xa6a68565d871a6d8, 0xa23425f8f32d20b3, 0xaed207caddb3fe5b, 0xdf4d732aba2ff1aa]
    );
    v.sort();
    assert_eq!(v, (0..10).collect::<Vec<usize>>());
}

#[test]
fn shuffle_moves_whatever_it_holds_in_the_same_way() {
    let mut words: Vec<String> = (0..10).map(|i| format!("word {i}")).collect();
    Rng::new(42).shuffle(&mut words);
    let order = [7, 3, 8, 9, 5, 6, 4, 1, 0, 2];
    let expected: Vec<String> = order.iter().map(|i| format!("word {i}")).collect();
    assert_eq!(words, expected);
}

#[test]
fn short_slices_need_no_numbers() {
    let mut rng = Rng::new(3);
    let mut none: [u8; 0] = [];
    rng.shuffle(&mut none);
    let mut one = [5u8];
    rng.shuffle(&mut one);
    assert_eq!(one, [5]);
    assert_eq!(rng.s, Rng::new(3).s);
}

#[test]
fn parameter_counts() {
    // 26 letters and the boundary token
    assert_eq!(Model::new(27).n_params, 4192);
    let n = |layers, width| {
        Model::with_shape(27, Shape::new(layers, width, 4, 16).unwrap()).n_params
    };
    assert_eq!(n(1, 16), 4192);
    assert_eq!(n(1, 32), 14528);
    assert_eq!(n(2, 16), 7264);
    assert_eq!(n(2, 32), 26816);
}

#[test]
fn shapes_have_no_zero_dimension() {
    assert_eq!(Shape::new(0, 16, 4, 16), Err(ShapeError::ZeroDimension));
    assert_eq!(Shape::new(1, 0, 4, 16), Err(ShapeError::ZeroDimension));
    assert_eq!(Shape::new(1, 16, 0, 16), Err(ShapeError::ZeroDimension));
    assert_eq!(Shape::new(1, 16, 4, 0), Err(ShapeError::ZeroDimension));
}

#[test]
fn heads_share_the_width() {
    assert_eq!(Shape::new(1, 16, 3, 16), Err(ShapeError::UnevenHeads));
    let shape = Shape::new(2, 24, 3, 8).unwrap();
    assert_eq!(shape.head_dim(), 8);
    assert_eq!(Shape::default(), Shape::new(1, 16, 4, 16).unwrap());
}

#[test]
fn tensors_follow_one_another() {
    let m = Model::with_shape(5, Shape::new(2, 6, 2, 3).unwrap());
    let mut all = vec![m.wte, m.wpe, m.lm_head];
    for l in &m.layers {
        all.push(l.wqkv);
        all.push(l.wo);
        all.push(l.fc1);
        all.push(l.fc2);
    }
    let mut off = 0;
    for t in &all {
        assert_eq!(t.off, off);
        off += t.len();
    }
    assert_eq!(off, m.n_params);
    assert_eq!((m.wte.rows, m.wte.cols), (5, 6));
    assert_eq!((m.wpe.rows, m.wpe.cols), (3, 6));
    assert_eq!((m.layers[1].wqkv.rows, m.layers[1].wqkv.cols), (18, 6));
    assert_eq!((m.layers[1].fc1.rows, m.layers[1].fc2.cols), (24, 24));
}

fn config(batch_size: usize, n_threads: usize) -> TrainConfig<u8> {
    TrainConfig { num_steps: 1, batch_size, n_threads, log_path: None, eval_every: 1, lr: 0 }
}

#[test]
fn threads_are_at_least_one_and_at_most_the_batch() {
    assert_eq!((config(16, 4).batch(), config(16, 4).threads()), (16, 4));
    assert_eq!((config(16, 40).batch(), config(16, 40).threads()), (16, 16));
    assert_eq!((config(16, 0).batch(), config(16, 0).threads()), (16, 1));
    assert_eq!((config(0, 5).batch(), config(0, 5).threads()), (1, 1));
}

#[test]
fn default_threads_are_few() {
    assert_eq!(default_threads(1), 1);
    assert_eq!(default_threads(3), 3);
    assert_eq!(default_threads(4), 4);
    assert_eq!(default_threads(64), 4);
}

#[test]
fn waiting_spins_and_then_yields() {
    let mut wait = Wait::new();
    for _ in 0..SPIN_LIMIT {
        assert_eq!(wait.until_changed(3, 3), Poll::Spin);
    }
    assert_eq!(wait.until_changed(3, 3), Poll::Yield);
    assert_eq!(wait.until_changed(3, 3), Poll::Yield);
    assert_eq!(wait.until_changed(4, 3), Poll::Ready);

    let mut wait = Wait::new();
    assert_eq!(wait.until_equal(0, 2), Poll::Spin);
    assert_eq!(wait.until_equal(2, 2), Poll::Ready);
    assert_eq!(wait.spins, 1);
}

#[test]
fn workers_step_until_they_quit() {
    assert_eq!(order(1), Order::Step(1));
    assert_eq!(order(20_000), Order::Step(20_000));
    assert_eq!(order(QUIT), Order::Quit);
}

#[test]
fn sizes_are_checked() {
    let small = Shape::default();
    assert_eq!(small.checked_params(27), Some(4192));
    assert!(small.fits(27));
    assert_eq!(small.checked_params(usize::MAX), None);
    assert!(!small.fits(usize::MAX));
    // the parameters are few, but the attention weights of a block are too many
    let long = Shape::new(1, 1, 1, 1 << 40).unwrap();
    assert_eq!(long.checked_params(2), Some(4 + (1 << 40) + 12));
    assert!(!long.fits(2));
    let wide = Shape::new(1, 1 << 63, 1, 1).unwrap();
    assert!(!wide.fits(1));
}
