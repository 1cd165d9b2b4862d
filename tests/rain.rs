use rainfall::{rain, Depth};

fn assert_depths(got: &[Depth], exp: &[(i128, i128)]) {
    assert_eq!(got.len(), exp.len());
    for (i, (d, &(n, m))) in got.iter().zip(exp.iter()).enumerate() {
        assert!(
            d.num * m == n * d.den as i128,
            "position {}: got {}/{}, expected {}/{}",
            i,
            d.num,
            d.den,
            n,
            m
        );
    }
}

fn whole(v: &[i128]) -> Vec<(i128, i128)> {
    v.iter().map(|&x| (x, 1)).collect()
}

fn gcd(a: i128, b: i128) -> i128 {
    if b == 0 {
        a.abs()
    } else {
        gcd(b, a % b)
    }
}

/// Sum of fractions, reduced.
fn sum_of(v: &[(i128, i128)]) -> (i128, i128) {
    let mut acc = (0i128, 1i128);
    for &(n, d) in v {
        let num = acc.0 * d + n * acc.1;
        let den = acc.1 * d;
        let g = gcd(num, den).max(1);
        acc = (num / g, den / g);
    }
    acc
}

fn depths_sum(v: &[Depth]) -> (i128, i128) {
    let pairs: Vec<(i128, i128)> = v.iter().map(|d| (d.num, d.den as i128)).collect();
    sum_of(&pairs)
}

fn plus(k: i128, part: (i128, i128)) -> (i128, i128) {
    (k * part.1 + part.0, part.1)
}

#[test]
fn identity() {
    let res = vec![1, 1];

    assert_depths(&rain(1, &res), &whole(&[1, 1]));
    assert_depths(&rain(2, &res), &whole(&[2, 2]));

    let res = vec![1, 1, 1];
    assert_depths(&rain(1, &res), &whole(&[1, 1, 1]));

    let res = vec![1];
    assert_depths(&rain(2, &res), &whole(&[2]));

    for size in 0..200 {
        let res = vec![1; size];
        assert_depths(&rain(1, &res), &whole(&vec![1; size]));
    }
}

#[test]
fn greater() {
    let res = vec![1, 9, 1];

    for size in 8..200usize {
        let s = size as i128;
        let part = (3 * s - 16, 3);
        assert_depths(&rain(size, &res), &[plus(8, part), part, plus(8, part)]);
    }

    let res = vec![1, 9, 1, 9, 1];

    for size in 8..200usize {
        let s = size as i128;
        let part = (5 * s - 24, 5);
        assert_depths(
            &rain(size, &res),
            &[plus(8, part), part, plus(8, part), part, plus(8, part)],
        );
    }

    let res = vec![1, 9, 1, 6, 1];

    for size in 8..200usize {
        let s = size as i128;
        let part = (5 * s - 27, 5);
        assert_depths(
            &rain(size, &res),
            &[plus(8, part), part, plus(8, part), plus(3, part), plus(8, part)],
        );
    }

    let res = vec![1, 9, 9, 6, 1];

    for size in 8..200usize {
        let s = size as i128;
        let part = (5 * s - 19, 5);
        assert_depths(
            &rain(size, &res),
            &[plus(8, part), part, part, plus(3, part), plus(8, part)],
        );
    }

    let res = vec![1, 9, 9, 6];

    for size in 8..200usize {
        let s = size as i128;
        let part = (4 * s - 11, 4);
        assert_depths(&rain(size, &res), &[plus(8, part), part, part, plus(3, part)]);
    }
}

#[test]
fn less() {
    let res = vec![1, 9, 1];
    assert_depths(&rain(1, &res), &[(3, 2), (0, 1), (3, 2)]);
    assert_depths(&rain(2, &res), &whole(&[3, 0, 3]));
    assert_depths(&rain(5, &res), &[(15, 2), (0, 1), (15, 2)]);

    let res = vec![1, 9, 1, 1];
    assert_depths(&rain(1, &res), &[(3, 2), (0, 1), (5, 4), (5, 4)]);
    assert_depths(&rain(2, &res), &[(3, 1), (0, 1), (5, 2), (5, 2)]);
}

#[test]
fn another() {
    let res = vec![1, 9, 1, 9];
    assert_depths(&rain(1, &res), &[(3, 2), (0, 1), (5, 2), (0, 1)]);

    let res = vec![9, 9, 1, 9];
    assert_depths(&rain(1, &res), &whole(&[0, 0, 4, 0]));

    let res = vec![8, 9, 1, 9];
    assert_depths(&rain(1, &res), &whole(&[1, 0, 3, 0]));

    let res = vec![8, 9, 1, 9, 9];
    assert_depths(&rain(1, &res), &whole(&[1, 0, 4, 0, 0]));

    let res = vec![8, 5, 1, 12, 9, 2, 1, 12, 1];
    let part = (1, 6);
    let exp = vec![
        part,
        plus(3, part),
        plus(7, part),
        (0, 1),
        (0, 1),
        (11, 2),
        (13, 2),
        (0, 1),
        (9, 2),
    ];
    assert_eq!(sum_of(&exp), (3 * res.len() as i128, 1));
    assert_depths(&rain(3, &res), &exp);
}

#[test]
fn failed() {
    let res = vec![1, 8, 8, 1];
    assert_depths(&rain(1, &res), &whole(&[2, 0, 0, 2]));

    let res = vec![8, 1, 8, 8, 1];
    assert_depths(&rain(1, &res), &whole(&[0, 3, 0, 0, 2]));

    let res = vec![5, 8, 7, 7, 8, 1];
    assert_depths(&rain(1, &res), &whole(&[2, 0, 1, 1, 0, 2]));

    let res = vec![5, 9, 7, 7, 8, 1];
    assert_depths(&rain(1, &res), &[(3, 2), (0, 1), (1, 1), (1, 1), (0, 1), (5, 2)]);

    let res = vec![5, 8, 7, 7, 9, 1];
    assert_depths(&rain(1, &res), &[(5, 2), (0, 1), (1, 1), (1, 1), (0, 1), (3, 2)]);
}

#[test]
fn possible() {
    let res: Vec<usize> = (1..=20).collect();
    let part = (5, 6);

    let mut exp = vec![
        plus(5, part),
        plus(4, part),
        plus(3, part),
        plus(2, part),
        plus(1, part),
        part,
    ];
    exp.extend(whole(&[0; 14]));
    assert_eq!(5 + 4 + 3 + 2 + 1 + 5, res.len());
    let r = rain(1, &res);
    assert_depths(&r, &exp);
}

#[test]
fn double_possible() {
    let mut res: Vec<usize> = (1..=20).collect();
    res.extend(1..=20);
    let part = (3, 4);
    let part2 = (11, 12);

    let mut exp = vec![
        plus(5, part),
        plus(4, part),
        plus(3, part),
        plus(2, part),
        plus(1, part),
        part,
    ];
    exp.extend(whole(&[0; 14]));
    exp.extend([
        plus(5, part2),
        plus(4, part2),
        plus(3, part2),
        plus(2, part2),
        plus(1, part2),
        part2,
    ]);
    exp.extend(whole(&[0; 14]));
    // 30 + (3/4 + 11/12) * 6 == 40, over twelfths
    assert_eq!(30 * 12 + (9 + 11) * 6, res.len() as i128 * 12);
    let r = rain(1, &res);
    assert_depths(&r, &exp);
}

#[test]
fn left_propagate() {
    let res = vec![5, 8, 8, 6, 6, 8, 8, 1];
    let exp = whole(&[2, 0, 0, 2, 2, 0, 0, 2]);
    assert_eq!(sum_of(&exp), (res.len() as i128, 1));
    assert_depths(&rain(1, &res), &exp);

    let res = vec![5, 8, 8, 8, 6, 6, 8, 1];
    let exp = vec![(5, 2), (0, 1), (0, 1), (0, 1), (2, 1), (2, 1), (0, 1), (3, 2)];
    assert_eq!(sum_of(&exp), (res.len() as i128, 1));
    assert_depths(&rain(1, &res), &exp);

    let res = vec![5, 8, 6, 6, 8, 8, 8, 1];
    let exp = vec![(3, 2), (0, 1), (2, 1), (2, 1), (0, 1), (0, 1), (0, 1), (5, 2)];
    assert_eq!(sum_of(&exp), (res.len() as i128, 1));
    assert_depths(&rain(1, &res), &exp);
}

#[test]
fn double_possible_left() {
    let mut res: Vec<usize> = vec![6, 5, 4, 3, 2, 1];
    res.extend(1..=20);
    res.extend(1..=20);
    let part = (11, 20);
    let part2 = (11, 12);

    let mut exp = vec![(0, 1)];
    exp.extend([part, plus(1, part), plus(2, part), plus(3, part), plus(4, part)]);
    exp.extend([plus(4, part), plus(3, part), plus(2, part), plus(1, part), part]);
    exp.extend(whole(&[0; 7]));
    exp.extend(whole(&[0; 7]));
    exp.push((0, 1));
    exp.extend([
        plus(5, part2),
        plus(4, part2),
        plus(3, part2),
        plus(2, part2),
        plus(1, part2),
        part2,
    ]);
    exp.extend(whole(&[0; 14]));
    // (4 + 3 + 2 + 1) * 3 + 5 + part * 10 + part2 * 6 == 46, over sixtieths
    assert_eq!(
        (4 + 3 + 2 + 1) * 3 * 60 + 5 * 60 + 11 * 3 * 10 + 11 * 5 * 6,
        res.len() as i128 * 60
    );
    let r = rain(1, &res);
    assert_depths(&r, &exp);
}

#[test]
fn double_possible_left_2hours() {
    let res = vec![1, 2, 3, 4, 5, 6];

    let part = (2, 5);

    let exp = vec![plus(4, part), plus(3, part), plus(2, part), plus(1, part), part, (0, 1)];
    assert_eq!(sum_of(&exp), ((res.len() * 2) as i128, 1));
    let r = rain(2, &res);
    assert_depths(&r, &exp);

    let mut res: Vec<usize> = vec![6, 5, 4, 3, 2, 1];
    res.extend(1..=20);
    res.extend(1..=20);
    // (51 - (6 + 5 + 4 + 3 + 2 + 1) * 2) / 13 and (41 - (8 + 7 + ... + 1)) / 9
    let part = (51 - (6 + 5 + 4 + 3 + 2 + 1) * 2, 13);
    let part2 = (41 - (8 + 7 + 6 + 5 + 4 + 3 + 2 + 1), 9);

    let mut exp = vec![plus(1, part)];
    exp.extend([plus(2, part), plus(3, part), plus(4, part), plus(5, part), plus(6, part)]);
    exp.extend([plus(6, part), plus(5, part), plus(4, part), plus(3, part), plus(2, part)]);
    exp.extend([plus(1, part), part]);
    exp.extend(whole(&[0; 13]));
    exp.extend([
        plus(8, part2),
        plus(7, part2),
        plus(6, part2),
        plus(5, part2),
        plus(4, part2),
        plus(3, part2),
    ]);
    exp.extend([plus(2, part2), plus(1, part2), part2]);
    exp.extend(whole(&[0; 11]));
    assert_eq!(sum_of(&exp), ((res.len() * 2) as i128, 1));
    let r = rain(2, &res);
    assert_depths(&r, &exp);
}

#[test]
fn another_left() {
    let res = vec![1, 2, 3, 4, 5, 6, 7, 7, 7];

    let part = (1, 2);

    let mut exp = vec![
        plus(5, part),
        plus(4, part),
        plus(3, part),
        plus(2, part),
        plus(1, part),
        part,
    ];
    exp.extend(whole(&[0, 0, 0]));
    assert_eq!(sum_of(&exp), ((res.len() * 2) as i128, 1));
    let r = rain(2, &res);
    assert_depths(&r, &exp);

    let res = vec![1, 2, 3, 4, 5, 6, 7, 7, 7, 5];

    let mut exp = vec![
        plus(5, part),
        plus(4, part),
        plus(3, part),
        plus(2, part),
        plus(1, part),
        part,
    ];
    exp.extend(whole(&[0, 0, 0, 2]));
    assert_eq!(sum_of(&exp), ((res.len() * 2) as i128, 1));
    let r = rain(2, &res);
    assert_depths(&r, &exp);

    let res = vec![1, 2, 1, 7, 0, 6, 7, 5];

    let part = (2, 3);
    let part2 = (1, 2);

    let exp = vec![
        plus(2, part),
        plus(1, part),
        plus(2, part),
        (0, 1),
        plus(6, part2),
        part2,
        (0, 1),
        (2, 1),
    ];
    assert_eq!(sum_of(&exp), ((res.len() * 2) as i128, 1));

    let r = rain(2, &res);
    assert_depths(&r, &exp);
}

#[test]
fn left_right() {
    let res = vec![1, 2, 3, 4, 5, 6, 7, 7, 7, 1];

    let exp = whole(&[5, 4, 3, 2, 1, 0, 0, 0, 0, 5]);
    assert_eq!(sum_of(&exp), ((res.len() * 2) as i128, 1));
    let r = rain(2, &res);
    assert_depths(&r, &exp);

    let res = vec![1, 2, 3, 4, 5, 6, 7, 6, 6, 7, 1];

    let exp = whole(&[5, 4, 3, 2, 1, 0, 0, 1, 1, 0, 5]);
    assert_eq!(sum_of(&exp), ((res.len() * 2) as i128, 1));
    let r = rain(2, &res);
    assert_depths(&r, &exp);
}

#[test]
fn empty_profile_gets_nothing() {
    assert!(rain(0, &[]).is_empty());
    assert!(rain(7, &[]).is_empty());
}

#[test]
fn single_position_keeps_its_rain() {
    for h in [0usize, 1, 5, 1000] {
        for x in [0usize, 3, 100] {
            assert_depths(&rain(h, &[x]), &[(h as i128, 1)]);
        }
    }
}

#[test]
fn level_ground_keeps_each_rain() {
    for h in [0usize, 1, 3] {
        for x in [0usize, 1, 9] {
            for n in 2..12 {
                let res = vec![x; n];
                assert_depths(&rain(h, &res), &whole(&vec![h as i128; n]));
            }
        }
    }
}

#[test]
fn water_is_conserved_and_never_negative() {
    let profiles: Vec<Vec<usize>> = vec![
        vec![1, 9, 1],
        vec![8, 5, 1, 12, 9, 2, 1, 12, 1],
        vec![17, 2, 5, 2, 17],
        vec![0, 3, 0, 3, 0, 3],
        vec![4, 1, 1, 1, 4, 2, 6, 0, 0, 5],
        vec![1, 2, 1, 7, 0, 6, 7, 5],
    ];
    for res in &profiles {
        for h in 0..6usize {
            let r = rain(h, res);
            assert_eq!(depths_sum(&r), ((h * res.len()) as i128, 1), "{:?} {}", res, h);
            assert!(r.iter().all(|d| d.num >= 0 && d.den > 0));
        }
    }
}

#[test]
fn symmetric_profiles_with_mirrored_result() {
    let res = vec![1, 9, 1];
    assert_depths(&rain(3, &res), &[(9, 2), (0, 1), (9, 2)]);
    let res = vec![1, 8, 8, 1];
    assert_depths(&rain(1, &res), &whole(&[2, 0, 0, 2]));
}

#[test]
fn symmetric_profile_split_by_last_peak() {
    // The last of two equal peaks splits the profile, so the surplus lands on
    // one side only and the result is not mirrored.
    let res = vec![17, 2, 5, 2, 17];
    assert_depths(&rain(1, &res), &whole(&[0, 3, 0, 2, 0]));
}

#[test]
fn overflow_spreads_by_fraction_of_length() {
    // room 8 + 8 = 16, water 3 * 7 = 21: 5 left over, 5/3 each
    let res = vec![1, 9, 1];
    assert_depths(&rain(7, &res), &[(29, 3), (5, 3), (29, 3)]);
}

#[test]
fn split_behind_lower_peak_can_gain_water() {
    // Taking the middle again from the end of the range hands out more water
    // than fell: 27/2 against 13.
    let res = vec![0, 3, 4, 3, 3, 3, 3, 4, 1, 3, 3, 0, 3];
    let r = rain(1, &res);
    assert_depths(
        &r,
        &[
            (3, 2),
            (0, 1),
            (0, 1),
            (1, 1),
            (1, 1),
            (1, 1),
            (1, 1),
            (0, 1),
            (13, 5),
            (3, 5),
            (3, 5),
            (18, 5),
            (3, 5),
        ],
    );
    assert_eq!(depths_sum(&r), (27, 2));
}

#[test]
fn split_behind_lower_peak_can_go_below_zero() {
    let res = vec![1, 5, 7, 6, 8, 6, 5, 5, 5, 5, 5, 8, 2, 4, 4, 4, 6, 0, 1, 7];
    let r = rain(3, &res);
    assert_depths(
        &r,
        &[
            (23, 4),
            (7, 4),
            (0, 1),
            (-1, 2),
            (0, 1),
            (2, 1),
            (3, 1),
            (3, 1),
            (3, 1),
            (3, 1),
            (3, 1),
            (0, 1),
            (6, 1),
            (4, 1),
            (4, 1),
            (4, 1),
            (2, 1),
            (8, 1),
            (7, 1),
            (1, 1),
        ],
    );
}

#[test]
fn overtopped_profile_gets_room_and_equal_share() {
    // highest 5, room 4 + 0 + 2 + 5 = 11, rain 4 * 4 = 16: 5/4 each on top
    let res = vec![1, 5, 3, 0];
    assert_depths(&rain(4, &res), &[(21, 4), (5, 4), (13, 4), (25, 4)]);
    // exactly full
    let res = vec![2, 5, 4, 1];
    assert_depths(&rain(2, &res), &whole(&[3, 0, 1, 4]));
}

#[test]
fn last_highest_position_stays_dry() {
    let res = vec![3, 9, 2, 9, 1];
    let r = rain(1, &res);
    assert_eq!(r[3].num, 0);
    assert_eq!(depths_sum(&r), (5, 1));
}
