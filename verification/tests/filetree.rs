use ncdu_import::filetree::{SizedFile, Tree};

#[test]
fn parent_dir_should_be_ignored() {
    let got = Tree::from(vec![
        SizedFile {
            path: "dir/file".to_owned(),
            size: 1,
        },
        SizedFile {
            path: "dir".to_owned(),
            size: 2,
        },
    ]);

    let want = Tree::from(vec![SizedFile {
        path: "dir/file".to_owned(),
        size: 1,
    }]);

    assert_eq!(want, got);
}

#[test]
fn child_dir_should_replace() {
    let got = Tree::from(vec![
        SizedFile {
            path: "dir".to_owned(),
            size: 2,
        },
        SizedFile {
            path: "dir/file".to_owned(),
            size: 1,
        },
    ]);

    let want = Tree::from(vec![SizedFile {
        path: "dir/file".to_owned(),
        size: 1,
    }]);

    assert_eq!(want, got);
}

fn sized(path: &str, size: usize) -> SizedFile {
    SizedFile {
        path: path.to_owned(),
        size,
    }
}

fn dir(children: Vec<(&str, Tree)>) -> Tree {
    Tree::Directory(
        children
            .into_iter()
            .map(|(name, tree)| (name.to_owned(), tree))
            .collect(),
    )
}

#[test]
fn no_files_build_an_empty_directory() {
    assert_eq!(Tree::from(vec![]), Tree::Directory(vec![]));
    assert_eq!(Tree::default(), Tree::Directory(vec![]));
}

#[test]
fn directory_wins_when_the_file_comes_first() {
    let got = Tree::from(vec![sized("dir", 2), sized("dir/file", 1)]);
    assert_eq!(got, dir(vec![("dir", dir(vec![("file", Tree::File(1))]))]));
}

#[test]
fn directory_wins_when_the_file_comes_last() {
    let got = Tree::from(vec![sized("dir/file", 1), sized("dir", 2)]);
    assert_eq!(got, dir(vec![("dir", dir(vec![("file", Tree::File(1))]))]));
}

#[test]
fn a_leaf_keeps_its_size_below_its_directories() {
    let got = Tree::from(vec![sized("a/b", 5)]);
    assert_eq!(got, dir(vec![("a", dir(vec![("b", Tree::File(5))]))]));
}

#[test]
fn children_are_kept_in_ascending_order() {
    let got = Tree::from(vec![sized("b", 2), sized("a", 1), sized("c", 3)]);
    assert_eq!(
        got,
        dir(vec![
            ("a", Tree::File(1)),
            ("b", Tree::File(2)),
            ("c", Tree::File(3)),
        ])
    );
}

#[test]
fn names_are_ordered_as_strings_are() {
    let names = [
        "b", "a", "", "ab", "B", "a/", "é", "z", "a b", "日本", "aa", "~", "0", "10", "9", "Z",
        "\u{10348}", "\u{ffff}", "a\u{0}", "é!",
    ];
    let files = names
        .iter()
        .enumerate()
        .map(|(i, name)| sized(&format!("top/{}", name.replace('/', "_")), i))
        .collect();
    let tree = Tree::from(files);
    let mut want: Vec<String> = names.iter().map(|name| name.replace('/', "_")).collect();
    want.sort();
    want.dedup();
    match tree {
        Tree::Directory(top) => match &top[0].1 {
            Tree::Directory(children) => {
                let got: Vec<String> = children.iter().map(|(name, _)| name.clone()).collect();
                assert_eq!(got, want);
            }
            other => panic!("expected a directory, got {:?}", other),
        },
        other => panic!("expected a directory, got {:?}", other),
    }
}

#[test]
fn a_later_file_of_the_same_path_gives_the_size() {
    let got = Tree::from(vec![sized("a", 1), sized("b", 7), sized("a", 2)]);
    assert_eq!(got, dir(vec![("a", Tree::File(2)), ("b", Tree::File(7))]));
}

#[test]
fn a_file_on_the_way_becomes_a_directory() {
    let got = Tree::from(vec![sized("a/b", 1), sized("a/b/c/d", 2), sized("a/x", 3)]);
    assert_eq!(
        got,
        dir(vec![(
            "a",
            dir(vec![
                ("b", dir(vec![("c", dir(vec![("d", Tree::File(2))]))])),
                ("x", Tree::File(3)),
            ])
        )])
    );
}

#[test]
fn empty_names_are_names() {
    let got = Tree::from(vec![sized("", 1), sized("a//b", 2), sized("c/", 3), sized("/d", 4)]);
    assert_eq!(
        got,
        dir(vec![
            ("", dir(vec![("d", Tree::File(4))])),
            ("a", dir(vec![("", dir(vec![("b", Tree::File(2))]))])),
            ("c", dir(vec![("", Tree::File(3))])),
        ])
    );
}

#[test]
fn add_puts_one_file_into_the_tree() {
    let mut tree = Tree::from(vec![sized("a/b", 1)]);
    tree.add(sized("a/c", 2));
    tree.add(sized("a", 9));
    tree.add(sized("a/b", 4));
    assert_eq!(
        tree,
        dir(vec![(
            "a",
            dir(vec![("b", Tree::File(4)), ("c", Tree::File(2))])
        )])
    );
}

#[test]
fn add_turns_a_file_into_a_directory() {
    let mut tree = Tree::File(3);
    tree.add(sized("a", 1));
    assert_eq!(tree, dir(vec![("a", Tree::File(1))]));
}

#[test]
fn every_order_of_the_records_builds_the_same_tree() {
    let records = [
        ("dir", 2),
        ("dir/file", 1),
        ("dir/sub/x", 3),
        ("other", 4),
        ("dir/sub", 5),
        ("b/a", 6),
    ];
    let want = dir(vec![
        ("b", dir(vec![("a", Tree::File(6))])),
        (
            "dir",
            dir(vec![
                ("file", Tree::File(1)),
                ("sub", dir(vec![("x", Tree::File(3))])),
            ]),
        ),
        ("other", Tree::File(4)),
    ]);
    // all 720 orders, by Heap's algorithm
    let mut order: Vec<usize> = (0..records.len()).collect();
    let mut counters = vec![0; records.len()];
    let mut seen = 0;
    let mut i = 0;
    loop {
        let files = order.iter().map(|&k| sized(records[k].0, records[k].1)).collect();
        assert_eq!(Tree::from(files), want, "order {:?}", order);
        seen += 1;
        while i < records.len() && counters[i] >= i {
            counters[i] = 0;
            i += 1;
        }
        if i == records.len() {
            break;
        }
        if i % 2 == 0 {
            order.swap(0, i);
        } else {
            order.swap(counters[i], i);
        }
        counters[i] += 1;
        i = 0;
    }
    assert_eq!(seen, 720);
}

#[test]
fn files_of_one_path_and_two_sizes_depend_on_the_order() {
    let one = Tree::from(vec![sized("a", 1), sized("a", 2)]);
    let other = Tree::from(vec![sized("a", 2), sized("a", 1)]);
    assert_eq!(one, dir(vec![("a", Tree::File(2))]));
    assert_eq!(other, dir(vec![("a", Tree::File(1))]));
}

#[test]
fn sizes_that_differ_do_not_count_where_the_path_is_a_directory() {
    let one = Tree::from(vec![sized("a", 1), sized("a/b", 3), sized("a", 2)]);
    let other = Tree::from(vec![sized("a", 2), sized("a", 1), sized("a/b", 3)]);
    assert_eq!(one, other);
    assert_eq!(one, dir(vec![("a", dir(vec![("b", Tree::File(3))]))]));
}

#[test]
fn many_children_are_found_again() {
    let mut files = Vec::new();
    for i in 0..500usize {
        let k = (i * 7919) % 500;
        files.push(sized(&format!("d/{:03}", k), k));
    }
    for i in 0..500usize {
        files.push(sized(&format!("d/{:03}", i), i + 1));
    }
    match Tree::from(files) {
        Tree::Directory(top) => match &top[0].1 {
            Tree::Directory(children) => {
                assert_eq!(children.len(), 500);
                for (i, (name, child)) in children.iter().enumerate() {
                    assert_eq!(name, &format!("{:03}", i));
                    assert_eq!(child, &Tree::File(i + 1));
                }
            }
            other => panic!("expected a directory, got {:?}", other),
        },
        other => panic!("expected a directory, got {:?}", other),
    }
}
