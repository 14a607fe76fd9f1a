use ecs_rust::split::{pick_four, pick_three, pick_two};

#[test]
fn pick_two_in_both_orders() {
    let mut items = vec![0, 10, 20, 30];
    {
        let (a, b) = pick_two(&mut items, 1, 3);
        assert_eq!((*a, *b), (10, 30));
        *a += 1;
        *b += 3;
    }
    assert_eq!(items, vec![0, 11, 20, 33]);
    {
        let (a, b) = pick_two(&mut items, 3, 0);
        assert_eq!((*a, *b), (33, 0));
        *a = 7;
        *b = 8;
    }
    assert_eq!(items, vec![8, 11, 20, 7]);
}

#[test]
fn pick_three_in_every_order() {
    let orders = [[0usize, 1, 2], [0, 2, 1], [1, 0, 2], [1, 2, 0], [2, 0, 1], [2, 1, 0]];
    for order in orders {
        let mut items = vec![100, 200, 300, 400];
        {
            let (a, b, c) = pick_three(&mut items, order[0], order[1], order[2]);
            assert_eq!(*a, 100 * (order[0] as i32 + 1));
            assert_eq!(*b, 100 * (order[1] as i32 + 1));
            assert_eq!(*c, 100 * (order[2] as i32 + 1));
            *a += 1;
            *b += 2;
            *c += 3;
        }
        let mut expected = vec![100, 200, 300, 400];
        expected[order[0]] += 1;
        expected[order[1]] += 2;
        expected[order[2]] += 3;
        assert_eq!(items, expected);
    }
}

#[test]
fn pick_four_in_every_order() {
    let mut count = 0;
    for a in 0..5usize {
        for b in 0..5usize {
            for c in 0..5usize {
                for d in 0..5usize {
                    if a == b || a == c || a == d || b == c || b == d || c == d {
                        continue;
                    }
                    count += 1;
                    let mut items = vec![0i64, 10, 20, 30, 40];
                    {
                        let (w, x, y, z) = pick_four(&mut items, a, b, c, d);
                        assert_eq!(*w, 10 * a as i64);
                        assert_eq!(*x, 10 * b as i64);
                        assert_eq!(*y, 10 * c as i64);
                        assert_eq!(*z, 10 * d as i64);
                        *w += 1;
                        *x += 2;
                        *y += 3;
                        *z += 4;
                    }
                    let mut expected = vec![0i64, 10, 20, 30, 40];
                    expected[a] += 1;
                    expected[b] += 2;
                    expected[c] += 3;
                    expected[d] += 4;
                    assert_eq!(items, expected);
                }
            }
        }
    }
    assert_eq!(count, 120);
}
