use ndlife::life::Life;
use ndlife::vector::{vec_add, vec_copy, vec_eq};

#[test]
fn gen_offsets() {
    let os = Life::gen_offsets(2);
    assert_eq!(os.len(), 3usize.pow(2) - 1);

    let os = Life::gen_offsets(5);
    assert_eq!(os.len(), 3usize.pow(5) - 1);
}

#[test]
fn count_neighbors() {
    let mut l = Life::new(3);
    l.create(vec![0, 0, 0]);
    l.create(vec![1, 0, 0]);
    l.create(vec![0, -1, -1]);

    assert_eq!(l.count_neighbors(&vec![0, 0, 0]), 2);
}

#[test]
fn rod() {
    let mut life = Life::new(2);
    life.create(vec![0, 1]);
    life.create(vec![0, 0]);
    life.create(vec![0, -1]);

    let cells = life.clone();

    life.cycle();
    life.cycle();

    assert!(life.same_live(&cells));
}

#[test]
fn square() {
    let mut life = Life::new(2);
    life.create(vec![0, 0]);
    life.create(vec![0, 1]);
    life.create(vec![1, 0]);
    life.create(vec![1, 1]);

    let cells = life.clone();

    life.cycle();

    assert!(life.same_live(&cells));
}

#[test]
fn rod_differs_after_one_cycle() {
    let mut life = Life::new(2);
    life.create(vec![0, 1]);
    life.create(vec![0, 0]);
    life.create(vec![0, -1]);

    let cells = life.clone();

    life.cycle();

    assert!(!life.same_live(&cells));
    // the vertical rod has become a horizontal one
    assert!(life.get(&vec![-1, 0]));
    assert!(life.get(&vec![0, 0]));
    assert!(life.get(&vec![1, 0]));
    assert_eq!(life.live_count(), 3);
}

#[test]
fn offsets_distinct_and_nonzero() {
    let os = Life::gen_offsets(1);
    assert_eq!(os.len(), 2);

    let os = Life::gen_offsets(3);
    assert_eq!(os.len(), 26);
    for o in os.iter() {
        assert_eq!(o.len(), 3);
        assert!(o.iter().all(|&x| -1 <= x && x <= 1));
        assert!(o.iter().any(|&x| x != 0));
    }
    for (i, a) in os.iter().enumerate() {
        for b in os.iter().skip(i + 1) {
            assert!(!vec_eq(a, b));
        }
    }
}

#[test]
fn count_neighbors_translation_invariant() {
    let cells = [vec![0i64, 0], vec![1, 0], vec![0, -1], vec![5, 7]];
    let t = vec![3i64, -4];
    let p = vec![1i64, -1];

    let mut base = Life::new(2);
    let mut moved = Life::new(2);
    for c in cells.iter() {
        base.create(vec_copy(c));
        moved.create(vec_add(c, &t));
    }

    assert_eq!(
        base.count_neighbors(&p),
        moved.count_neighbors(&vec_add(&p, &t))
    );
}

#[test]
fn cycle_deterministic() {
    let mut a = Life::new(2);
    let mut b = Life::new(2);
    for c in [vec![0i64, 0], vec![0, 1], vec![1, 0], vec![2, 2], vec![2, 3]] {
        a.create(vec_copy(&c));
        b.create(c);
    }
    a.cycle();
    b.cycle();
    assert!(a.same_live(&b));
    a.cycle();
    b.cycle();
    assert!(a.same_live(&b));
}

#[test]
fn create_get_kill() {
    let mut l = Life::new(2);
    let p = vec![4i64, -2];

    assert!(!l.get(&p));
    l.create(vec_copy(&p));
    assert!(l.get(&p));
    assert_eq!(l.live_count(), 1);

    // creating an already-live cell is a no-op
    l.create(vec_copy(&p));
    assert_eq!(l.live_count(), 1);

    l.kill(&p);
    assert!(!l.get(&p));
    assert_eq!(l.live_count(), 0);

    // killing an already-dead cell is a no-op
    l.kill(&p);
    assert!(!l.get(&p));
    assert_eq!(l.live_count(), 0);
}

#[test]
fn isolated_cell_dies() {
    let mut l = Life::new(3);
    l.create(vec![2, -5, 1]);
    assert_eq!(l.live_count(), 1);
    l.cycle();
    assert_eq!(l.live_count(), 0);
}

#[test]
fn empty_board_stays_empty() {
    let mut l = Life::new(2);
    l.cycle();
    assert_eq!(l.live_count(), 0);
}

#[test]
fn one_dimensional_rod() {
    let mut l = Life::new(1);
    l.create(vec![-1]);
    l.create(vec![0]);
    l.create(vec![1]);

    l.cycle();
    // only the middle cell has two neighbors; births need three, which is
    // impossible with two offsets
    assert_eq!(l.live_count(), 1);
    assert!(l.get(&vec![0]));

    l.cycle();
    assert_eq!(l.live_count(), 0);
}

#[test]
fn empty_with_neighbors_single_cell() {
    let mut l = Life::new(2);
    l.create(vec![0, 0]);

    let ns = l.empty_with_neighbors();
    assert_eq!(ns.len(), 8);
    for (p, cnt) in ns.iter() {
        assert_eq!(*cnt, 1);
        assert!(!l.get(p));
        assert!(p.iter().all(|&x| -1 <= x && x <= 1));
    }
}

#[test]
fn vec_add_componentwise() {
    let a = vec![1i64, -2, 3];
    let b = vec![10i64, 20, -30];
    let r = vec_add(&a, &b);
    assert_eq!(r, vec![11, 18, -27]);
}

#[test]
fn glider_period_four_translated() {
    // the 2-D glider reappears translated by (1, -1) after four generations
    let start = [vec![0i64, 0], vec![1, 0], vec![2, 0], vec![2, 1], vec![1, 2]];
    let mut life = Life::new(2);
    for c in start.iter() {
        life.create(vec_copy(c));
    }
    for _ in 0..4 {
        life.cycle();
    }
    let mut expected = Life::new(2);
    let t = vec![1i64, -1];
    for c in start.iter() {
        expected.create(vec_add(c, &t));
    }
    assert!(life.same_live(&expected));
}

#[test]
fn live_cells_reports_each_cell_once() {
    let mut l = Life::new(2);
    l.create(vec![0, 0]);
    l.create(vec![3, 4]);
    l.create(vec![0, 0]);

    let cells = l.live_cells();
    assert_eq!(cells.len(), 2);
    assert!(cells.iter().any(|c| vec_eq(c, &vec![0, 0])));
    assert!(cells.iter().any(|c| vec_eq(c, &vec![3, 4])));
}
