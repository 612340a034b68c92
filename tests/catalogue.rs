use catalogue::{Catalogue, Index};

fn sample() -> Catalogue<i32, &'static str> {
    Catalogue::List {
        data: "z",
        list: vec![
            Catalogue::List {
                data: "a",
                list: vec![Catalogue::Item(1), Catalogue::Item(4)],
            },
            Catalogue::List {
                data: "b",
                list: vec![
                    Catalogue::List {
                        data: "b",
                        list: vec![Catalogue::Item(32)],
                    },
                    Catalogue::Item(2),
                ],
            },
        ],
    }
}

fn group(n: i32) -> Catalogue<i32, &'static str> {
    Catalogue::List {
        data: "g",
        list: (0..n).map(Catalogue::Item).collect(),
    }
}

fn positions(pages: &[Vec<(usize, &Catalogue<i32, &'static str>)>]) -> Vec<Vec<usize>> {
    pages
        .iter()
        .map(|page| page.iter().map(|entry| entry.0).collect())
        .collect()
}

#[test]
fn test_catalogue() {
    let catalogue = Catalogue::List {
        data: "z",
        list: vec![
            Catalogue::List {
                data: "a",
                list: vec![Catalogue::Item(1), Catalogue::Item(4)],
            },
            Catalogue::List {
                data: "b",
                list: vec![
                    Catalogue::List {
                        data: "b",
                        list: vec![Catalogue::Item(32)],
                    },
                    Catalogue::Item(2),
                ],
            },
        ],
    };

    assert_eq!(
        catalogue.get(&Index(vec![])).cloned(),
        Some(catalogue.clone())
    );
    assert_eq!(
        catalogue.get(&Index(vec![0, 0])).cloned(),
        Some(Catalogue::Item(1))
    );
    assert_eq!(
        catalogue.get(&Index(vec![0, 1])).cloned(),
        Some(Catalogue::Item(4))
    );
    assert_eq!(catalogue.get(&Index(vec![0, 0, 0])).cloned(), None,);
}

#[test]
fn empty_address_resolves_to_root() {
    let tree = sample();
    assert_eq!(tree.get(&Index(vec![])), Some(&tree));
    let leaf: Catalogue<i32, &str> = Catalogue::Item(7);
    assert_eq!(leaf.get(&Index(vec![])), Some(&leaf));
}

#[test]
fn item_blocks_descent() {
    let tree: Catalogue<i32, &str> = Catalogue::List {
        data: "root",
        list: vec![Catalogue::Item(10), Catalogue::Item(11)],
    };
    assert_eq!(tree.get(&Index(vec![0, 0])), None);
    assert_eq!(tree.get(&Index(vec![1, 0, 3])), None);
    assert_eq!(Catalogue::<i32, &str>::Item(1).get(&Index(vec![0])), None);
}

#[test]
fn out_of_range_is_absent() {
    let tree: Catalogue<i32, &str> = Catalogue::List {
        data: "root",
        list: vec![Catalogue::Item(10), Catalogue::Item(11)],
    };
    assert_eq!(tree.get(&Index(vec![5])), None);
    assert_eq!(tree.get(&Index(vec![2])), None);
    assert_eq!(tree.get(&Index(vec![1])), Some(&Catalogue::Item(11)));
    assert_eq!(sample().get(&Index(vec![1, 2])), None);
}

#[test]
fn deep_resolution() {
    let tree = sample();
    assert_eq!(tree.get(&Index(vec![1, 0, 0])), Some(&Catalogue::Item(32)));
    assert_eq!(tree.get(&Index(vec![1, 1])), Some(&Catalogue::Item(2)));
    let inner = tree.get(&Index(vec![1, 0])).unwrap();
    assert!(matches!(inner, Catalogue::List { data: "b", .. }));
}

#[test]
fn pagination_partitions_children() {
    let tree = group(7);
    let pages = tree.paginate(3);
    assert_eq!(positions(&pages), vec![vec![0, 1, 2], vec![3, 4, 5], vec![6]]);
    for page in &pages {
        for (position, child) in page {
            assert_eq!(**child, Catalogue::Item(*position as i32));
        }
    }
}

#[test]
fn pagination_exact_and_single_pages() {
    assert_eq!(positions(&group(6).paginate(3)), vec![vec![0, 1, 2], vec![3, 4, 5]]);
    assert_eq!(positions(&group(3).paginate(1)), vec![vec![0], vec![1], vec![2]]);
    assert_eq!(positions(&group(2).paginate(10)), vec![vec![0, 1]]);
    assert_eq!(group(0).paginate(3).len(), 0);
}

#[test]
fn pagination_of_an_item_is_empty() {
    let leaf: Catalogue<i32, &str> = Catalogue::Item(5);
    assert!(leaf.paginate(3).is_empty());
}

#[test]
fn pagination_page_count_is_rounded_up() {
    for n in 0..12 {
        for k in 1..5usize {
            let tree = group(n);
            let pages = tree.paginate(k);
            let n = n as usize;
            assert_eq!(pages.len(), (n + k - 1) / k);
            let flat: Vec<usize> = positions(&pages).concat();
            assert_eq!(flat, (0..n).collect::<Vec<usize>>());
            for (p, page) in pages.iter().enumerate() {
                if p + 1 < pages.len() {
                    assert_eq!(page.len(), k);
                }
            }
        }
    }
}

#[test]
fn end_to_end_navigation() {
    let tree = sample();
    assert_eq!(tree.get(&Index(vec![])), Some(&tree));
    assert_eq!(tree.get(&Index(vec![0, 0])), Some(&Catalogue::Item(1)));
    assert_eq!(tree.get(&Index(vec![0, 1])), Some(&Catalogue::Item(4)));
    assert_eq!(tree.get(&Index(vec![0, 0, 0])), None);
    let pages = tree.paginate(3);
    assert_eq!(positions(&pages), vec![vec![0, 1]]);
    let root = Index::new(vec![]);
    let second = root.join(pages[0][1].0);
    assert_eq!(second.to_text(), "/1/");
    let reparsed = Index::from_text(&second.to_text()).unwrap();
    assert!(std::ptr::eq(tree.get(&reparsed).unwrap(), pages[0][1].1));
}
