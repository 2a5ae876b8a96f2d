use find_dupes::buckets::group_by_size;
use find_dupes::consolidate::{consolidate, InodeTable};
use find_dupes::content::{compare_chunks, group_by_content, ChunkVerdict, ContentStep};
use find_dupes::html::{write_dupes_html, PAGE_BOTTOM, PAGE_TOP};
use find_dupes::record::DedupFile;
use find_dupes::size_spec::{parse_file_size_spec, SizeSpecError};
use find_dupes::walker::{EntryMeta, GroupByInodeIter, WalkStep};

/// An in-memory tree: each entry is (parent dir, name, meta, content).
struct Node {
    parent: &'static str,
    path: &'static str,
    meta: EntryMeta,
    content: &'static [u8],
}

fn dir(parent: &'static str, path: &'static str, inode: u64) -> Node {
    Node {
        parent,
        path,
        meta: EntryMeta { is_dir: true, is_file: false, len: 4096, device: 1, inode, nlink: 2 },
        content: b"",
    }
}

fn file(parent: &'static str, path: &'static str, inode: u64, content: &'static [u8]) -> Node {
    Node {
        parent,
        path,
        meta: EntryMeta { is_dir: false, is_file: true, len: content.len() as u64, device: 1, inode, nlink: 1 },
        content,
    }
}

fn content_of<'a>(tree: &'a [Node], path: &str) -> &'a [u8] {
    tree.iter().find(|n| n.path == path).map(|n| n.content).unwrap()
}

fn walk(tree: &[Node], root: &str, min_size: u64) -> (Vec<DedupFile>, usize) {
    let mut w = GroupByInodeIter::new(root.to_string(), 1, 1, min_size);
    let mut files = Vec::new();
    let mut expansions = 0;
    loop {
        match w.next_step() {
            WalkStep::File(f) => files.push(f),
            WalkStep::Expand(d) => {
                expansions += 1;
                assert!(expansions < 100, "walk does not end");
                for n in tree.iter().filter(|n| n.parent == d) {
                    let m = EntryMeta { ..copy_meta(&n.meta) };
                    w.push_child(n.path.to_string(), &m);
                }
            }
            WalkStep::Done => return (files, expansions),
        }
    }
}

fn copy_meta(m: &EntryMeta) -> EntryMeta {
    EntryMeta { is_dir: m.is_dir, is_file: m.is_file, len: m.len, device: m.device, inode: m.inode, nlink: m.nlink }
}

/// Runs the whole pipeline on an in-memory tree; returns each group as its
/// sorted list of sorted path lists, and the number of comparisons made.
fn find_dupes(tree: &[Node], min_size: u64) -> (Vec<Vec<Vec<String>>>, usize) {
    let (files, _) = walk(tree, "/r", min_size);
    let mut table = InodeTable::new();
    for f in files {
        table.add(f);
    }
    let shortlist = group_by_size(table.into_records());
    let mut it = group_by_content(shortlist);
    let mut out = Vec::new();
    let mut comparisons = 0;
    loop {
        match it.next_step() {
            ContentStep::Group(g) => {
                let mut group: Vec<Vec<String>> = g
                    .into_iter()
                    .map(|f| {
                        let mut p = f.paths;
                        p.sort();
                        p
                    })
                    .collect();
                group.sort();
                out.push(group);
            }
            ContentStep::Compare(a, b) => {
                comparisons += 1;
                let ca = content_of(tree, &a);
                let cb = content_of(tree, &b);
                assert_eq!(ca.len(), cb.len(), "compared files of different sizes");
                it.answer(ca == cb);
            }
            ContentStep::Done => break,
        }
    }
    out.sort();
    (out, comparisons)
}

const A500: &[u8] = &[7u8; 500];
const C500: &[u8] = &[8u8; 500];

#[test]
fn empty_root_gives_no_groups() {
    let tree = vec![];
    assert_eq!(find_dupes(&tree, 0).0, Vec::<Vec<Vec<String>>>::new());
}

#[test]
fn distinct_sizes_give_no_groups() {
    let tree = vec![file("/r", "/r/a", 10, &[1u8; 100]), file("/r", "/r/b", 11, &[1u8; 200]), file("/r", "/r/c", 12, &[1u8; 300])];
    let (groups, comparisons) = find_dupes(&tree, 0);
    assert!(groups.is_empty());
    assert_eq!(comparisons, 0);
}

#[test]
fn identical_pair_grouped_and_odd_one_left_out() {
    let tree = vec![file("/r", "/r/A", 10, A500), file("/r", "/r/B", 11, A500), file("/r", "/r/C", 12, C500)];
    let (groups, _) = find_dupes(&tree, 0);
    assert_eq!(groups, vec![vec![vec!["/r/A".to_string()], vec!["/r/B".to_string()]]]);
}

#[test]
fn hard_links_are_one_file() {
    let tree = vec![file("/r", "/r/link_a", 10, A500), file("/r", "/r/link_b", 10, A500), file("/r", "/r/B", 11, C500)];
    let (groups, _) = find_dupes(&tree, 0);
    assert!(groups.is_empty());
}

#[test]
fn threshold_filters_small_files() {
    let tree = vec![file("/r", "/r/A", 10, A500), file("/r", "/r/B", 11, A500)];
    assert!(find_dupes(&tree, 1000).0.is_empty());
    assert_eq!(find_dupes(&tree, 500).0.len(), 1);
}

#[test]
fn difference_in_last_byte_splits() {
    let mut tail = [3u8; 64];
    tail[63] = 4;
    let tail: &'static [u8] = Box::leak(Box::new(tail));
    let tree = vec![file("/r", "/r/x", 10, &[3u8; 64]), file("/r", "/r/y", 11, tail), file("/r", "/r/z", 12, &[3u8; 64])];
    let (groups, _) = find_dupes(&tree, 0);
    assert_eq!(groups, vec![vec![vec!["/r/x".to_string()], vec!["/r/z".to_string()]]]);
}

#[test]
fn two_classes_in_one_bucket() {
    let tree = vec![
        file("/r", "/r/a1", 10, A500),
        file("/r", "/r/c1", 11, C500),
        file("/r", "/r/a2", 12, A500),
        file("/r", "/r/c2", 13, C500),
        file("/r", "/r/a3", 14, A500),
    ];
    let (groups, _) = find_dupes(&tree, 0);
    assert_eq!(groups.len(), 2);
    assert_eq!(groups[0].len() + groups[1].len(), 5);
}

#[test]
fn nested_directories_are_walked() {
    let tree = vec![dir("/r", "/r/d", 2), dir("/r/d", "/r/d/e", 3), file("/r/d/e", "/r/d/e/a", 10, A500), file("/r", "/r/b", 11, A500)];
    let (groups, _) = find_dupes(&tree, 0);
    assert_eq!(groups, vec![vec![vec!["/r/b".to_string()], vec!["/r/d/e/a".to_string()]]]);
}

#[test]
fn directory_cycle_ends() {
    // /r/d/loop reports the same identity as /r/d
    let tree = vec![dir("/r", "/r/d", 2), dir("/r/d", "/r/d/loop", 2), file("/r/d", "/r/d/f", 10, A500)];
    let (files, expansions) = walk(&tree, "/r", 0);
    assert_eq!(files.len(), 1);
    assert_eq!(expansions, 2);
}

#[test]
fn loop_back_to_root_is_not_expanded() {
    // /r/d/up reports the root's identity
    let tree = vec![dir("/r", "/r/d", 2), dir("/r/d", "/r/d/up", 1), file("/r", "/r/f", 10, A500)];
    let (files, expansions) = walk(&tree, "/r", 0);
    assert_eq!(files.len(), 1);
    assert_eq!(expansions, 2);
}

#[test]
fn walker_skips_special_files_and_hands_out_files_first() {
    let mut w = GroupByInodeIter::new("/r".to_string(), 1, 1, 0);
    match w.next_step() {
        WalkStep::Expand(d) => assert_eq!(d, "/r"),
        _ => panic!("expected the root to be expanded"),
    }
    w.push_child("/r/fifo".to_string(), &EntryMeta { is_dir: false, is_file: false, len: 0, device: 1, inode: 5, nlink: 1 });
    w.push_child("/r/d".to_string(), &EntryMeta { is_dir: true, is_file: false, len: 0, device: 1, inode: 6, nlink: 1 });
    w.push_child("/r/f".to_string(), &EntryMeta { is_dir: false, is_file: true, len: 9, device: 1, inode: 7, nlink: 3 });
    match w.next_step() {
        WalkStep::File(f) => {
            assert_eq!(f.paths, vec!["/r/f".to_string()]);
            assert_eq!((f.size, f.device, f.inode, f.nlink), (9, 1, 7, 3));
        }
        _ => panic!("expected a file"),
    }
    match w.next_step() {
        WalkStep::Expand(d) => assert_eq!(d, "/r/d"),
        _ => panic!("expected a directory"),
    }
    assert!(matches!(w.next_step(), WalkStep::Done));
}

fn rec(path: &str, size: u64, inode: u64, nlink: u64) -> DedupFile {
    DedupFile::new(path.to_string(), size, 1, inode, nlink)
}

#[test]
fn consolidation_merges_links_in_order() {
    let mut t = InodeTable::new();
    t.add(rec("/a", 5, 1, 2));
    t.add(rec("/b", 6, 2, 1));
    t.add(rec("/c", 7, 1, 3));
    let r = t.into_records();
    assert_eq!(r.len(), 2);
    assert_eq!(r[0].paths, vec!["/a".to_string(), "/c".to_string()]);
    assert_eq!((r[0].size, r[0].nlink), (7, 3));
    assert_eq!(r[1].paths, vec!["/b".to_string()]);
}

#[test]
fn consolidation_in_any_order_keeps_all_paths() {
    let r = consolidate(vec![rec("/z", 5, 9, 3), rec("/x", 5, 9, 3), rec("/y", 5, 9, 3)]);
    assert_eq!(r.len(), 1);
    let mut p = r[0].paths.clone();
    p.sort();
    assert_eq!(p, vec!["/x".to_string(), "/y".to_string(), "/z".to_string()]);
}

#[test]
fn size_buckets_drop_singletons() {
    let r = group_by_size(vec![rec("/a", 5, 1, 1), rec("/b", 6, 2, 1), rec("/c", 5, 3, 1), rec("/d", 7, 4, 1), rec("/e", 5, 5, 1)]);
    assert_eq!(r.len(), 1);
    let paths: Vec<String> = r[0].iter().map(|f| f.paths[0].clone()).collect();
    assert_eq!(paths, vec!["/a".to_string(), "/c".to_string(), "/e".to_string()]);
}

#[test]
fn size_buckets_of_empty_input() {
    assert!(group_by_size(Vec::new()).is_empty());
}

#[test]
fn clusterer_compares_with_first_members_only() {
    let bucket = vec![rec("/a", 5, 1, 1), rec("/b", 5, 2, 1), rec("/c", 5, 3, 1)];
    let mut it = group_by_content(vec![bucket]);
    let mut asked = Vec::new();
    loop {
        match it.next_step() {
            ContentStep::Compare(a, b) => {
                asked.push((a.clone(), b.clone()));
                it.answer(true);
            }
            ContentStep::Group(g) => {
                assert_eq!(g.len(), 3);
            }
            ContentStep::Done => break,
        }
    }
    assert_eq!(asked, vec![("/b".to_string(), "/c".to_string()), ("/a".to_string(), "/c".to_string())]);
}

#[test]
fn clusterer_all_different_gives_nothing() {
    let bucket = vec![rec("/a", 5, 1, 1), rec("/b", 5, 2, 1), rec("/c", 5, 3, 1)];
    let mut it = group_by_content(vec![bucket, Vec::new()]);
    let mut comparisons = 0;
    loop {
        match it.next_step() {
            ContentStep::Compare(_, _) => {
                comparisons += 1;
                it.answer(false);
            }
            ContentStep::Group(_) => panic!("no group expected"),
            ContentStep::Done => break,
        }
    }
    assert_eq!(comparisons, 3);
}

#[test]
fn answer_without_question_changes_nothing() {
    let mut it = group_by_content(vec![vec![rec("/a", 5, 1, 1), rec("/b", 5, 2, 1)]]);
    it.answer(true);
    match it.next_step() {
        ContentStep::Compare(a, b) => assert_eq!((a.as_str(), b.as_str()), ("/a", "/b")),
        _ => panic!("expected a comparison"),
    }
}

#[test]
fn chunk_verdicts() {
    assert_eq!(compare_chunks(b"abcd", b"abcd", 4), ChunkVerdict::Continue);
    assert_eq!(compare_chunks(b"abc", b"abc", 4), ChunkVerdict::Same);
    assert_eq!(compare_chunks(b"", b"", 4), ChunkVerdict::Same);
    assert_eq!(compare_chunks(b"abc", b"abd", 4), ChunkVerdict::Differ);
    assert_eq!(compare_chunks(b"abc", b"abcd", 4), ChunkVerdict::Differ);
}

#[test]
fn size_specs() {
    assert_eq!(parse_file_size_spec("100000"), Ok(100000));
    assert_eq!(parse_file_size_spec("10k"), Ok(10000));
    assert_eq!(parse_file_size_spec("10kb"), Ok(10000));
    assert_eq!(parse_file_size_spec("10ki"), Ok(10240));
    assert_eq!(parse_file_size_spec("10KiB"), Ok(10240));
    assert_eq!(parse_file_size_spec("3M"), Ok(3000000));
    assert_eq!(parse_file_size_spec("3mib"), Ok(3145728));
    assert_eq!(parse_file_size_spec("2g"), Ok(2000000000));
    assert_eq!(parse_file_size_spec("2GiB"), Ok(2147483648));
    assert_eq!(parse_file_size_spec("1t"), Ok(1000000000000));
    assert_eq!(parse_file_size_spec("1ti"), Ok(1099511627776));
    assert_eq!(parse_file_size_spec("+7"), Ok(7));
    assert_eq!(parse_file_size_spec("0"), Ok(0));
    assert_eq!(parse_file_size_spec("18446744073709551615"), Ok(u64::MAX));
}

#[test]
fn size_spec_errors() {
    assert_eq!(parse_file_size_spec("10x"), Err(SizeSpecError::BadMultiplier));
    assert_eq!(parse_file_size_spec("10kk"), Err(SizeSpecError::BadMultiplier));
    assert_eq!(parse_file_size_spec("abc"), Err(SizeSpecError::BadMultiplier));
    assert_eq!(parse_file_size_spec(""), Err(SizeSpecError::BadNumber));
    assert_eq!(parse_file_size_spec("k"), Err(SizeSpecError::BadNumber));
    assert_eq!(parse_file_size_spec("1.5k"), Err(SizeSpecError::BadNumber));
    assert_eq!(parse_file_size_spec("-5"), Err(SizeSpecError::BadNumber));
    assert_eq!(parse_file_size_spec("+"), Err(SizeSpecError::BadNumber));
    assert_eq!(parse_file_size_spec("18446744073709551616"), Err(SizeSpecError::BadNumber));
    assert_eq!(parse_file_size_spec("20000000000t"), Err(SizeSpecError::TooLarge));
}

#[test]
fn html_page() {
    let mut a = rec("/a", 42, 1, 2);
    a.paths.push("/a2".to_string());
    let groups = vec![vec![a, rec("/b", 42, 2, 1)]];
    let page = write_dupes_html(&groups);
    let row = "    <tr><td><p><code>/a</code>, <code>/a2</code></p><p><code>/b</code></p></td><td>42</td></tr>\n";
    assert_eq!(page, format!("{}{}{}", PAGE_TOP, row, PAGE_BOTTOM));
    assert_eq!(write_dupes_html(&Vec::new()), format!("{}{}", PAGE_TOP, PAGE_BOTTOM));
}

#[test]
fn no_groups_is_done_at_once_and_stays_done() {
    let mut it = group_by_content(Vec::new());
    assert!(matches!(it.next_step(), ContentStep::Done));
    assert!(matches!(it.next_step(), ContentStep::Done));
}

#[test]
fn lone_candidate_needs_no_comparison() {
    let mut it = group_by_content(vec![vec![rec("/a", 500, 1, 1)]]);
    assert!(matches!(it.next_step(), ContentStep::Done));
    assert!(matches!(it.next_step(), ContentStep::Done));
}

#[test]
fn equal_answer_joins_cluster_and_unequal_moves_on() {
    let bucket = vec![rec("/a", 5, 1, 1), rec("/b", 5, 2, 1), rec("/c", 5, 3, 1), rec("/d", 5, 4, 1)];
    let mut it = group_by_content(vec![bucket]);
    let mut asked = Vec::new();
    let mut groups = Vec::new();
    loop {
        match it.next_step() {
            ContentStep::Compare(a, b) => {
                // /d and /b are equal, /c and /a are equal
                let same = (a == "/b" && b == "/d") || (a == "/a" && b == "/c");
                asked.push((a, b));
                it.answer(same);
            }
            ContentStep::Group(g) => groups.push(g.iter().map(|f| f.paths[0].clone()).collect::<Vec<_>>()),
            ContentStep::Done => break,
        }
    }
    let s = |x: &str| x.to_string();
    assert_eq!(
        asked,
        vec![(s("/c"), s("/d")), (s("/b"), s("/d")), (s("/a"), s("/d")), (s("/a"), s("/c"))]
    );
    groups.sort();
    assert_eq!(groups, vec![vec![s("/c"), s("/a")], vec![s("/d"), s("/b")]]);
}
