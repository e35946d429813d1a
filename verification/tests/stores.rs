//! Unit-level behaviour of the stores, the analysis accumulator, the
//! hashing helpers and the pending-path drain.

use commit_ast::MAX_REFS;
use commit_ast::accs::CppAcc;
use commit_ast::accs::JavaAcc;
use commit_ast::accs::drain_filter_strip;
use commit_ast::accs::split_empty_paths;
use commit_ast::analysis::PartialAnalysis;
use commit_ast::analysis::bloom_size;
use commit_ast::labels::LabelStore;
use commit_ast::hashing::hash32;
use commit_ast::hashing::inner_hash;
use commit_ast::hashing::wrapping_add32;
use commit_ast::nodes::BloomSize;
use commit_ast::nodes::SubTreeMetrics;
use commit_ast::nodes::SyntaxNodeHashs;
use commit_ast::records::Local;
use commit_ast::records::RelPath;

fn rel(comps: &[&str]) -> RelPath {
    RelPath { comps: comps.iter().map(|c| c.as_bytes().to_vec()).collect() }
}

#[test]
fn label_round_trip() {
    let mut ls = LabelStore::new();
    let a = ls.get_or_insert(b"pom.xml");
    let b = ls.get_or_insert(b"src");
    let a2 = ls.get_or_insert(b"pom.xml");
    assert_eq!(a, a2);
    assert_ne!(a, b);
    assert_eq!(ls.resolve(a).as_slice(), b"pom.xml");
    assert_eq!(ls.resolve(b).as_slice(), b"src");
    assert_eq!(ls.get(b"src"), Some(b));
    assert_eq!(ls.get(b"absent"), None);
    assert_eq!(ls.len(), 2);
}

#[test]
fn hash32_exact_value() {
    // h = ((seed * 31 + 'a') * 31 + 'b') mod 2^32
    let seed: u64 = 2166136261;
    let expect = ((seed * 31 + 97) * 31 + 98) % 0x1_0000_0000;
    assert_eq!(hash32(b"ab") as u64, expect);
    assert_eq!(hash32(b""), 2166136261);
    assert_eq!(hash32(b"ab"), hash32(b"ab"));
    assert_ne!(hash32(b"ab"), hash32(b"ba"));
}

#[test]
fn inner_hash_exact_value() {
    let expect = (7u64 * 1000003 + 5 * 8191 + 3 * 127 + 11) % 0x1_0000_0000;
    assert_eq!(inner_hash(7, 5, 3, 11) as u64, expect);
    assert_eq!(wrapping_add32(0xffff_ffff, 1), 0);
    assert_eq!(wrapping_add32(5, 7), 12);
}

#[test]
fn analysis_merge_and_resolve() {
    let a = PartialAnalysis::from_lists(&vec![1, 2, 3, 3], &vec![10]);
    assert_eq!(a.refs_count(), 3);
    let mut b = PartialAnalysis::from_lists(&vec![3, 4], &vec![2]);
    b.merge_from(&a);
    // refs {1,2,3,4}, decls {2,10}
    assert_eq!(b.refs_count(), 4);
    let r = b.resolve();
    // reference 2 is declared, the rest stay
    let mut kept = r.refs_list().clone();
    kept.sort();
    assert_eq!(kept, vec![1, 3, 4]);
    let mut decls = r.decls_list().clone();
    decls.sort();
    assert_eq!(decls, vec![2, 10]);
}

#[test]
fn bloom_tier_table() {
    assert_eq!(bloom_size(0, false), BloomSize::NoFilter);
    assert_eq!(bloom_size(1, false), BloomSize::B16);
    assert_eq!(bloom_size(8, false), BloomSize::B16);
    assert_eq!(bloom_size(9, false), BloomSize::B32);
    assert_eq!(bloom_size(15, false), BloomSize::B32);
    assert_eq!(bloom_size(16, false), BloomSize::B64);
    assert_eq!(bloom_size(30, false), BloomSize::B64);
    assert_eq!(bloom_size(31, false), BloomSize::B128);
    assert_eq!(bloom_size(100, false), BloomSize::B128);
    assert_eq!(bloom_size(101, false), BloomSize::B256);
    assert_eq!(bloom_size(150, false), BloomSize::B256);
    assert_eq!(bloom_size(151, false), BloomSize::B512);
    assert_eq!(bloom_size(200, false), BloomSize::B512);
    assert_eq!(bloom_size(256, false), BloomSize::B512);
    assert_eq!(bloom_size(257, false), BloomSize::B1024);
    assert_eq!(bloom_size(512, false), BloomSize::B1024);
    assert_eq!(bloom_size(513, false), BloomSize::B2048);
    assert_eq!(bloom_size(2048, false), BloomSize::B2048);
    assert_eq!(bloom_size(2049, false), BloomSize::Much);
    assert_eq!(bloom_size(3000, false), BloomSize::Much);
}

#[test]
fn bloom_skipped_always_much() {
    for refs in [0usize, 1, 9, 100, 3000] {
        assert_eq!(bloom_size(refs, true), BloomSize::Much);
    }
}

#[test]
fn drain_strips_matching_heads() {
    let mut pending = Some(vec![rel(&["sub", "mod"]), rel(&["other"]), rel(&["sub", "x", "y"])]);
    let out = drain_filter_strip(&mut pending, b"sub");
    let kept = pending.unwrap();
    assert_eq!(kept.len(), 1);
    assert_eq!(kept[0].comps, vec![b"other".to_vec()]);
    assert_eq!(out.len(), 2);
    assert_eq!(out[0].comps, vec![b"mod".to_vec()]);
    assert_eq!(out[1].comps, vec![b"x".to_vec(), b"y".to_vec()]);
}

#[test]
fn drain_on_empty_pending_set() {
    let mut pending: Option<Vec<RelPath>> = None;
    let out = drain_filter_strip(&mut pending, b"sub");
    assert!(out.is_empty());
    assert!(pending.is_none());
}

#[test]
fn drain_parent_reference_never_matches_clean_paths() {
    let mut pending = Some(vec![rel(&["a", "b"]), rel(&["c"])]);
    let out = drain_filter_strip(&mut pending, b"..");
    assert!(out.is_empty());
    assert_eq!(pending.unwrap().len(), 2);
}

#[test]
fn split_empties_reports_consumed_role() {
    let (kept, had_empty) = split_empty_paths(vec![rel(&[]), rel(&["x"])]);
    assert!(had_empty);
    assert_eq!(kept.len(), 1);
    let (kept2, had_empty2) = split_empty_paths(vec![rel(&["y"])]);
    assert!(!had_empty2);
    assert_eq!(kept2.len(), 1);
}

#[test]
fn cpp_accumulator_keeps_lists_aligned() {
    let mut acc = CppAcc::new(b"dir".to_vec());
    let child = Local {
        compressed_node: 0,
        metrics: SubTreeMetrics {
            size: 3,
            height: 2,
            hashs: SyntaxNodeHashs { structt: 1, label: 2, syntax: 3 },
        },
        ana: None,
    };
    acc.push(7, child, true);
    assert_eq!(acc.children, vec![0]);
    assert_eq!(acc.children_names, vec![7]);
    assert_eq!(acc.metrics.size, 3);
    assert_eq!(acc.metrics.height, 2);
}

#[test]
fn java_accumulator_skips_over_budget() {
    let refs: Vec<u64> = (0..MAX_REFS as u64).collect();
    let ana = PartialAnalysis::from_lists(&refs, &vec![]);
    let mut acc = JavaAcc::new(b"dir".to_vec());
    let child = Local {
        compressed_node: 0,
        metrics: SubTreeMetrics {
            size: 2,
            height: 2,
            hashs: SyntaxNodeHashs { structt: 0, label: 0, syntax: 0 },
        },
        ana: Some(ana),
    };
    assert!(!acc.skiped_ana);
    acc.push(1, child);
    // the child's reference count reaches the budget: the analysis is
    // elided and the skip flag set
    assert!(acc.skiped_ana);
    assert_eq!(acc.ana.refs_count(), 0);
}
