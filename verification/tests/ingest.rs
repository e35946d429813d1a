//! End-to-end scenarios over the modelled object store: Maven and Java
//! ingestion, memoization across commits, metrics and bloom tiers, and the
//! query surface.

use commit_ast::bloom::BloomFilter;
use commit_ast::model::BlobRecord;
use commit_ast::model::CommitRecord;
use commit_ast::model::EntryKind;
use commit_ast::model::RepoModel;
use commit_ast::model::TreeEntry;
use commit_ast::model::TreeList;
use commit_ast::nodes::BloomSize;
use commit_ast::nodes::NodeKind;
use commit_ast::preprocessed::PreProcessedRepository;
use commit_ast::preprocessed::split_path;
use commit_ast::records::RelPath;

fn blob(content: &str, refs: Vec<u64>, decls: Vec<u64>) -> BlobRecord {
    BlobRecord {
        content: content.as_bytes().to_vec(),
        refs,
        decls,
        bad_cst: false,
        sub_modules: Vec::new(),
        main_dirs: Vec::new(),
        test_dirs: Vec::new(),
    }
}

fn rel(comps: &[&str]) -> RelPath {
    RelPath { comps: comps.iter().map(|c| c.as_bytes().to_vec()).collect() }
}

fn tree_entry(kind: EntryKind, oid: u64, name: &str) -> TreeEntry {
    TreeEntry { kind, oid, name: name.as_bytes().to_vec() }
}

fn tree(entries: Vec<TreeEntry>) -> TreeList {
    TreeList { entries }
}

/// A single-module repository: a POM declaring `src/main/java` and one
/// Java file under it.
///
/// Object identifiers (children strictly below parents):
///   1 = A.java blob, 2 = pom.xml blob, 3 = java dir, 4 = main dir,
///   5 = src dir, 6 = root tree.
fn maven_repo() -> RepoModel {
    let mut repo = RepoModel::new();
    repo.blobs.insert(1, blob("class A {}", vec![], vec![]));
    let mut pom = blob("<project/>", vec![], vec![]);
    pom.main_dirs = vec![rel(&["src", "main", "java"])];
    repo.blobs.insert(2, pom);
    repo.trees.insert(3, tree(vec![tree_entry(EntryKind::Blob, 1, "A.java")]));
    repo.trees.insert(4, tree(vec![tree_entry(EntryKind::Tree, 3, "java")]));
    repo.trees.insert(5, tree(vec![tree_entry(EntryKind::Tree, 4, "main")]));
    repo.trees.insert(
        6,
        tree(vec![
            tree_entry(EntryKind::Blob, 2, "pom.xml"),
            tree_entry(EntryKind::Tree, 5, "src"),
        ]),
    );
    repo.commits.insert(100, CommitRecord { tree: 6, parents: vec![] });
    repo
}

#[test]
fn split_path_components() {
    let c = split_path("sub/mod");
    assert_eq!(c, vec![b"sub".to_vec(), b"mod".to_vec()]);
    assert_eq!(split_path(""), Vec::<Vec<u8>>::new());
    assert_eq!(split_path("a//b/"), vec![b"a".to_vec(), b"b".to_vec()]);
}

#[test]
fn single_commit_maven_layout() {
    let repo = maven_repo();
    let mut p = PreProcessedRepository::new("demo");
    p.pre_process(&repo, &vec![100], "");
    let c = p.commits.get(100).expect("commit processed");
    let root = c.ast_root;
    let n = p.main_stores.node_store.resolve(root);
    assert_eq!(n.kind, NodeKind::MavenDirectory);
    assert_eq!(n.children.len(), 2);
    assert_eq!(n.children_names.len(), 2);
    // the POM is explored first, so it stands first among the children
    assert_eq!(p.main_stores.label_store.resolve(n.children_names[0]).as_slice(), b"pom.xml");
    assert_eq!(p.main_stores.label_store.resolve(n.children_names[1]).as_slice(), b"src");
    // the path src/main/java/A.java resolves by child name
    let src = p.child_by_name(root, "src").expect("src");
    let main = p.child_by_name(src, "main").expect("main");
    let java = p.child_by_name(main, "java").expect("java");
    let file = p.child_by_name(java, "A.java").expect("A.java");
    let fnode = p.main_stores.node_store.resolve(file);
    assert_eq!(fnode.kind, NodeKind::File);
    assert_eq!(
        p.main_stores.label_store.resolve(fnode.label).as_slice(),
        b"A.java"
    );
    // the java source root was folded as a plain directory
    assert_eq!(p.main_stores.node_store.resolve(java).kind, NodeKind::Directory);
    // and the POM child is a POM node
    let (pom, idx) = p.child_by_type(root, NodeKind::Pom).expect("pom child");
    assert_eq!(idx, 0);
    let pnode = p.main_stores.node_store.resolve(pom);
    assert_eq!(p.main_stores.label_store.resolve(pnode.label).as_slice(), b"pom.xml");
}

#[test]
fn directory_metrics_are_sums() {
    let repo = maven_repo();
    let mut p = PreProcessedRepository::new("demo");
    p.pre_process(&repo, &vec![100], "");
    let root = p.commits.get(100).unwrap().ast_root;
    let n = p.main_stores.node_store.resolve(root);
    let mut size_sum: u32 = 0;
    let mut height_max: u32 = 0;
    for i in 0..n.children.len() {
        let ch = p.main_stores.node_store.resolve(n.children[i]);
        size_sum += ch.metrics.size;
        if ch.metrics.height > height_max {
            height_max = ch.metrics.height;
        }
    }
    assert_eq!(n.metrics.size, 1 + size_sum);
    assert_eq!(n.metrics.height, 1 + height_max);
    // file over content leaf: size two, height two
    let src = p.child_by_name(root, "src").unwrap();
    let main = p.child_by_name(src, "main").unwrap();
    let java = p.child_by_name(main, "java").unwrap();
    let file = p.child_by_name(java, "A.java").unwrap();
    let fnode = p.main_stores.node_store.resolve(file);
    assert_eq!(fnode.metrics.size, 2);
    assert_eq!(fnode.metrics.height, 2);
}

#[test]
fn identical_subtrees_share_one_node() {
    // two directories each holding a file with the same name and content:
    // the file nodes coincide, the directories coincide too
    let mut repo = RepoModel::new();
    repo.blobs.insert(1, blob("class X {}", vec![], vec![]));
    repo.blobs.insert(2, blob("class X {}", vec![], vec![]));
    repo.trees.insert(3, tree(vec![tree_entry(EntryKind::Blob, 1, "X.java")]));
    repo.trees.insert(4, tree(vec![tree_entry(EntryKind::Blob, 2, "X.java")]));
    repo.trees.insert(
        5,
        tree(vec![tree_entry(EntryKind::Tree, 3, "a"), tree_entry(EntryKind::Tree, 4, "b")]),
    );
    repo.commits.insert(100, CommitRecord { tree: 5, parents: vec![] });
    let mut p = PreProcessedRepository::new("demo");
    p.pre_process_no_maven(&repo, &vec![100], "");
    let root = p.commits.get(100).unwrap().ast_root;
    let a = p.child_by_name(root, "a").unwrap();
    let b = p.child_by_name(root, "b").unwrap();
    let xa = p.child_by_name(a, "X.java").unwrap();
    let xb = p.child_by_name(b, "X.java").unwrap();
    assert_eq!(xa, xb);
}

#[test]
fn reprocessing_keeps_root_and_store() {
    let repo = maven_repo();
    let mut p = PreProcessedRepository::new("demo");
    p.pre_process(&repo, &vec![100], "");
    let root1 = p.commits.get(100).unwrap().ast_root;
    let len1 = p.main_stores.node_store.len();
    p.pre_process(&repo, &vec![100], "");
    let root2 = p.commits.get(100).unwrap().ast_root;
    let len2 = p.main_stores.node_store.len();
    assert_eq!(root1, root2);
    assert_eq!(len1, len2);
}

#[test]
fn identical_trees_share_root_across_commits() {
    let mut repo = maven_repo();
    repo.commits.insert(101, CommitRecord { tree: 6, parents: vec![100] });
    let mut p = PreProcessedRepository::new("demo");
    p.pre_process(&repo, &vec![100, 101], "");
    let r1 = p.commits.get(100).unwrap().ast_root;
    let r2 = p.commits.get(101).unwrap().ast_root;
    assert_eq!(r1, r2);
    assert_eq!(p.commits.get(101).unwrap().parents, vec![100]);
}

#[test]
fn one_changed_file_keeps_unchanged_nodes() {
    // commit 101 changes only A.java: the POM node is shared, the spine
    // src/main/java and the root are re-inserted with new child lists
    let mut repo = maven_repo();
    repo.blobs.insert(7, blob("class A { int x; }", vec![], vec![]));
    repo.trees.insert(8, tree(vec![tree_entry(EntryKind::Blob, 7, "A.java")]));
    repo.trees.insert(9, tree(vec![tree_entry(EntryKind::Tree, 8, "java")]));
    repo.trees.insert(10, tree(vec![tree_entry(EntryKind::Tree, 9, "main")]));
    repo.trees.insert(
        11,
        tree(vec![
            tree_entry(EntryKind::Blob, 2, "pom.xml"),
            tree_entry(EntryKind::Tree, 10, "src"),
        ]),
    );
    repo.commits.insert(101, CommitRecord { tree: 11, parents: vec![100] });
    let mut p = PreProcessedRepository::new("demo");
    p.pre_process(&repo, &vec![100, 101], "");
    let r1 = p.commits.get(100).unwrap().ast_root;
    let r2 = p.commits.get(101).unwrap().ast_root;
    assert_ne!(r1, r2);
    let pom1 = p.child_by_name(r1, "pom.xml").unwrap();
    let pom2 = p.child_by_name(r2, "pom.xml").unwrap();
    assert_eq!(pom1, pom2);
    let java1 = {
        let s = p.child_by_name(r1, "src").unwrap();
        let m = p.child_by_name(s, "main").unwrap();
        p.child_by_name(m, "java").unwrap()
    };
    let java2 = {
        let s = p.child_by_name(r2, "src").unwrap();
        let m = p.child_by_name(s, "main").unwrap();
        p.child_by_name(m, "java").unwrap()
    };
    assert_ne!(java1, java2);
}

#[test]
fn empty_directory_folds_small_and_unfiltered() {
    let mut repo = RepoModel::new();
    repo.trees.insert(1, tree(vec![]));
    repo.trees.insert(2, tree(vec![tree_entry(EntryKind::Tree, 1, "d")]));
    repo.commits.insert(100, CommitRecord { tree: 2, parents: vec![] });
    let mut p = PreProcessedRepository::new("demo");
    p.pre_process_no_maven(&repo, &vec![100], "");
    let root = p.commits.get(100).unwrap().ast_root;
    let d = p.child_by_name(root, "d").unwrap();
    let n = p.main_stores.node_store.resolve(d);
    assert_eq!(n.bloom, BloomSize::NoFilter);
    assert_eq!(n.metrics.size, 1);
    assert_eq!(n.metrics.height, 1);
}

fn refs_repo(count: u64) -> RepoModel {
    let refs: Vec<u64> = (1..=count).collect();
    let mut repo = RepoModel::new();
    repo.blobs.insert(1, blob("class R {}", refs, vec![]));
    repo.trees.insert(2, tree(vec![tree_entry(EntryKind::Blob, 1, "R.java")]));
    repo.trees.insert(3, tree(vec![tree_entry(EntryKind::Tree, 2, "d")]));
    repo.commits.insert(100, CommitRecord { tree: 3, parents: vec![] });
    repo
}

fn dir_bloom_for_refs(count: u64) -> BloomSize {
    let repo = refs_repo(count);
    let mut p = PreProcessedRepository::new("demo");
    p.pre_process_no_maven(&repo, &vec![100], "");
    let root = p.commits.get(100).unwrap().ast_root;
    let d = p.child_by_name(root, "d").unwrap();
    p.main_stores.node_store.resolve(d).bloom
}

#[test]
fn directory_bloom_tiers_through_the_pipeline() {
    // nine reference-producing declarations select the 32-bit tier,
    // two hundred the tier above 150, three thousand no filter at all
    assert_eq!(dir_bloom_for_refs(9), BloomSize::B32);
    assert_eq!(dir_bloom_for_refs(200), BloomSize::B512);
    assert_eq!(dir_bloom_for_refs(3000), BloomSize::Much);
}

#[test]
fn malformed_file_is_kept_best_effort() {
    // PROPAGATE_ERROR_ON_BAD_CST_NODE is false: a malformed file is still
    // attached to its parent and the fold succeeds
    assert!(!commit_ast::PROPAGATE_ERROR_ON_BAD_CST_NODE);
    let mut repo = RepoModel::new();
    let mut bad = blob("class {", vec![], vec![]);
    bad.bad_cst = true;
    repo.blobs.insert(1, bad);
    repo.trees.insert(2, tree(vec![tree_entry(EntryKind::Blob, 1, "Bad.java")]));
    repo.trees.insert(3, tree(vec![tree_entry(EntryKind::Tree, 2, "s")]));
    repo.commits.insert(100, CommitRecord { tree: 3, parents: vec![] });
    let mut p = PreProcessedRepository::new("demo");
    p.pre_process_no_maven(&repo, &vec![100], "");
    let root = p.commits.get(100).unwrap().ast_root;
    let s = p.child_by_name(root, "s").unwrap();
    let f = p.child_by_name(s, "Bad.java").expect("file kept");
    assert_eq!(p.main_stores.node_store.resolve(f).kind, NodeKind::File);
}

#[test]
fn descent_enters_only_matching_children() {
    // module_path "sub/mod": the target subtree is the commit's root
    let mut repo = RepoModel::new();
    repo.blobs.insert(1, blob("<project/>", vec![], vec![]));
    repo.trees.insert(2, tree(vec![tree_entry(EntryKind::Blob, 1, "pom.xml")]));
    repo.trees.insert(3, tree(vec![tree_entry(EntryKind::Tree, 2, "mod")]));
    repo.trees.insert(4, tree(vec![]));
    repo.trees.insert(
        5,
        tree(vec![
            tree_entry(EntryKind::Tree, 3, "sub"),
            tree_entry(EntryKind::Tree, 4, "sibling"),
        ]),
    );
    repo.commits.insert(100, CommitRecord { tree: 5, parents: vec![] });
    let mut p = PreProcessedRepository::new("demo");
    p.pre_process(&repo, &vec![100], "sub/mod");
    let root = p.commits.get(100).unwrap().ast_root;
    let n = p.main_stores.node_store.resolve(root);
    // the root of the commit's tree is the node for `mod`, not the repo root
    assert_eq!(p.main_stores.label_store.resolve(n.label).as_slice(), b"mod");
    assert_eq!(n.kind, NodeKind::MavenDirectory);
    assert!(p.child_by_name(root, "pom.xml").is_some());
    assert!(p.child_by_name(root, "sibling").is_none());
}

#[test]
fn source_roots_found_under_modules() {
    let repo = maven_repo();
    let mut p = PreProcessedRepository::new("demo");
    p.pre_process(&repo, &vec![100], "");
    let root = p.commits.get(100).unwrap().ast_root;
    let java = {
        let s = p.child_by_name(root, "src").unwrap();
        let m = p.child_by_name(s, "main").unwrap();
        p.child_by_name(m, "java").unwrap()
    };
    let roots = p.module_source_roots(root);
    assert_eq!(roots, vec![java]);
    let mods = p.collect_maven_modules(root);
    assert!(mods.contains(&root));
}

#[test]
fn repository_name_and_caches() {
    let mut p = PreProcessedRepository::new("demo");
    assert_eq!(p.name(), "demo");
    p.purge_caches();
    assert_eq!(p.main_stores.node_store.len(), 0);
    let l = p.get_or_insert_label("x");
    assert_eq!(p.main_stores.label_store.resolve(l).as_slice(), b"x");
}

#[test]
fn over_budget_subtree_gets_much_whatever_its_refs() {
    // the file's reference count reaches MAX_REFS: the directory's
    // analysis is skipped and the node receives the Much tier even though
    // its own resolved reference set is empty
    assert_eq!(dir_bloom_for_refs(10000), BloomSize::Much);
}

#[test]
fn bloom_filter_never_misses_a_reference() {
    let repo = refs_repo(9);
    let mut p = PreProcessedRepository::new("demo");
    p.pre_process_no_maven(&repo, &vec![100], "");
    let root = p.commits.get(100).unwrap().ast_root;
    let d = p.child_by_name(root, "d").unwrap();
    let n = p.main_stores.node_store.resolve(d);
    let f = BloomFilter { size: n.bloom, bits: n.bloom_bits.clone() };
    for x in 1u64..=9 {
        assert!(f.might_contain(x));
    }
}

#[test]
fn bloom_filter_rejects_most_absent_atoms() {
    // width 32, nine entries at 1..=9: an atom mapping to an untouched
    // bit answers negatively
    let f = BloomFilter::from_refs(
        commit_ast::nodes::BloomSize::B32,
        &(1u64..=9).collect::<Vec<u64>>(),
    );
    assert!(f.might_contain(5));
    assert!(!f.might_contain(20));
}
