use mergesort::merge_sort;
use mergesort::Keyed;

#[test]
fn sort() {
    let mut vec: Vec<i64> = vec![4, -1, 0, 2, 3, 5, 1];
    let expect: Vec<i64> = vec![-1, 0, 1, 2, 3, 4, 5];

    merge_sort(&mut vec);
    assert_eq!(expect, vec);
}

#[test]
fn empty_is_untouched() {
    let mut v: Vec<i64> = vec![];
    merge_sort(&mut v);
    assert_eq!(v, Vec::<i64>::new());
}

#[test]
fn singleton_is_untouched() {
    let mut v: Vec<i64> = vec![42];
    merge_sort(&mut v);
    assert_eq!(v, vec![42i64]);
}

#[test]
fn all_equal_stays_put() {
    let mut v: Vec<i64> = vec![5, 5, 5, 5];
    merge_sort(&mut v);
    assert_eq!(v, vec![5i64, 5, 5, 5]);
}

#[test]
fn reverse_sorted() {
    let mut v: Vec<i64> = vec![9, 8, 7, 6, 5, 4, 3, 2, 1];
    merge_sort(&mut v);
    assert_eq!(v, vec![1i64, 2, 3, 4, 5, 6, 7, 8, 9]);
}

#[test]
fn already_sorted_is_unchanged() {
    let mut v: Vec<i64> = vec![-3, -1, 0, 2, 2, 7, 11];
    let expect = v.clone();
    merge_sort(&mut v);
    assert_eq!(v, expect);
}

#[test]
fn unsigned_elements() {
    let mut v: Vec<u64> = vec![3, 0, 10, 7, 7, 1];
    merge_sort(&mut v);
    assert_eq!(v, vec![0u64, 1, 3, 7, 7, 10]);
}

#[test]
fn stable_on_equal_keys() {
    let mut v = vec![
        Keyed { key: 1, tag: 'a' },
        Keyed { key: 1, tag: 'b' },
        Keyed { key: 0, tag: 'c' },
        Keyed { key: 1, tag: 'd' },
    ];
    merge_sort(&mut v);
    let expect = vec![
        Keyed { key: 0, tag: 'c' },
        Keyed { key: 1, tag: 'a' },
        Keyed { key: 1, tag: 'b' },
        Keyed { key: 1, tag: 'd' },
    ];
    assert_eq!(expect, v);
}

#[test]
fn stable_on_interleaved_keys() {
    let mut v = Vec::new();
    let tags = ['a', 'b', 'c', 'd', 'e', 'f', 'g', 'h'];
    for (pos, tag) in tags.iter().enumerate() {
        v.push(Keyed {
            key: (pos % 2) as i64,
            tag: *tag,
        });
    }
    merge_sort(&mut v);
    let expect = vec![
        Keyed { key: 0, tag: 'a' },
        Keyed { key: 0, tag: 'c' },
        Keyed { key: 0, tag: 'e' },
        Keyed { key: 0, tag: 'g' },
        Keyed { key: 1, tag: 'b' },
        Keyed { key: 1, tag: 'd' },
        Keyed { key: 1, tag: 'f' },
        Keyed { key: 1, tag: 'h' },
    ];
    assert_eq!(expect, v);
}

#[test]
fn large_scrambled_input() {
    let n: i64 = 1000;
    let mut v: Vec<i64> = Vec::new();
    for i in 0..n {
        v.push((i * 7919) % n);
    }
    merge_sort(&mut v);
    assert_eq!(v.len(), n as usize);
    for i in 0..v.len() - 1 {
        assert!(v[i] <= v[i + 1]);
    }
    for (i, e) in v.iter().enumerate() {
        assert_eq!(*e, i as i64);
    }
}
