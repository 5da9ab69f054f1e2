use omnivore::coverage::model::{FileCoverage, LineCoverage, Rate};
use omnivore::server::file_tree::{build_file_tree, hotspots, FileTreeNode};

fn file(path: &str, hits: &[i64], branches: (i64, i64)) -> FileCoverage {
    let lines: Vec<LineCoverage> =
        hits.iter().enumerate().map(|(i, h)| LineCoverage { line_number: i as i32 + 1, hit_count: *h }).collect();
    FileCoverage {
        path: path.to_string(),
        line_rate: Rate::Ratio { covered: 0, total: 0 },
        branch_rate: Rate::Ratio { covered: branches.0, total: branches.1 },
        lines,
        branches_covered: branches.0,
        branches_total: branches.1,
        source_content: None,
    }
}

fn shape(nodes: &[FileTreeNode]) -> Vec<String> {
    nodes
        .iter()
        .map(|n| {
            if n.is_dir {
                format!("{}[{}]{{{}}}", n.name, n.full_path, shape(&n.children).join(","))
            } else {
                format!("{}[{}]", n.name, n.full_path)
            }
        })
        .collect()
}

#[test]
fn the_tree_lists_directories_in_key_order_then_files() {
    let files = vec![
        file("src/a/x.rs", &[1, 0], (1, 2)),
        file("README", &[1], (0, 0)),
        file("src/b.rs", &[0, 0, 3], (0, 4)),
        file("lib/z.rs", &[2], (0, 0)),
        file("src/a/y.rs", &[1], (1, 1)),
    ];
    let tree = build_file_tree(&files);
    assert_eq!(
        shape(&tree),
        vec![
            "lib[lib]{z.rs[lib/z.rs]}".to_string(),
            "src[src]{a[src/a]{x.rs[src/a/x.rs],y.rs[src/a/y.rs]},b.rs[src/b.rs]}".to_string(),
            "README[README]".to_string(),
        ]
    );
    let src = &tree[1];
    assert_eq!(src.file_count, 3);
    assert_eq!((src.lines_covered, src.lines_total), (3, 6));
    assert_eq!((src.branches_covered, src.branches_total), (2, 7));
    let a = &src.children[0];
    assert_eq!((a.file_count, a.lines_covered, a.lines_total, a.branches_covered, a.branches_total), (2, 2, 3, 2, 3));
    assert_eq!((tree[2].lines_covered, tree[2].lines_total, tree[2].file_count), (1, 1, 1));
}

#[test]
fn single_subdirectory_chains_are_joined() {
    let files = vec![file("x/y/z/f.rs", &[1], (0, 0)), file("x/y/z/g.rs", &[0], (0, 0))];
    let tree = build_file_tree(&files);
    assert_eq!(shape(&tree), vec!["x/y/z[x/y/z]{f.rs[x/y/z/f.rs],g.rs[x/y/z/g.rs]}".to_string()]);
    assert_eq!(tree[0].file_count, 2);
    assert!(build_file_tree(&Vec::new()).is_empty());
}

#[test]
fn hotspots_rank_by_uncovered_lines() {
    let mut files = vec![
        file("full.rs", &[1, 1], (0, 0)),
        file("a.rs", &[0, 0, 1], (0, 0)),
        file("b.rs", &[0, 0, 0], (0, 0)),
        file("c.rs", &[0, 0], (0, 0)),
        file("d.rs", &[0, 0, 1, 1], (0, 0)),
    ];
    assert_eq!(
        hotspots(&files),
        vec![
            ("b.rs".to_string(), 3, 3),
            ("c.rs".to_string(), 2, 2),
            ("a.rs".to_string(), 2, 3),
            ("d.rs".to_string(), 2, 4),
        ]
    );
    for i in 0..20 {
        files.push(file(&format!("m{i}.rs"), &[0], (0, 0)));
    }
    let top = hotspots(&files);
    assert_eq!(top.len(), 15);
    assert_eq!(top[4], ("m0.rs".to_string(), 1, 1));
    assert_eq!(top[14], ("m10.rs".to_string(), 1, 1));
}
