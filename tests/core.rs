use aminosim::assemble::assemble;
use aminosim::mutator::{EvolveError, Mutator, Substitution};
use aminosim::sequence::{choose_symbol, get_cumulative, Sequence};
use aminosim::text::{check_number, parse_partition, string_of, trimmed};
use aminosim::tree::{parse_newick, NTree, ParseError};

const BASES: [u8; 4] = [b'A', b'G', b'C', b'T'];

fn uniform_table() -> Vec<(u8, u64)> {
    vec![(b'A', 1), (b'G', 1), (b'C', 1), (b'T', 1)]
}

/// A model whose every branch uses the same discretised transition table.
struct FixedModel {
    sub: Substitution,
}

impl Mutator for FixedModel {
    fn mutate(&self, s: &Sequence, _v: &str) -> Result<Sequence, EvolveError> {
        self.sub.apply(s)
    }

    fn random(&self, l: usize) -> Sequence {
        let t: Vec<(u8, u64)> = (0..4).map(|i| (self.sub.bases[i], self.sub.weights[i])).collect();
        Sequence::new(&t, l)
    }
}

fn identity_rows() -> [[u64; 4]; 4] {
    [[1, 0, 0, 0], [0, 1, 0, 0], [0, 0, 1, 0], [0, 0, 0, 1]]
}

fn symmetric_model() -> FixedModel {
    FixedModel { sub: Substitution { bases: BASES, weights: [1, 1, 1, 1], rows: [[7, 1, 1, 1], [1, 7, 1, 1], [1, 1, 7, 1], [1, 1, 1, 7]] } }
}

fn identity_model() -> FixedModel {
    FixedModel { sub: Substitution { bases: BASES, weights: [1, 1, 1, 1], rows: identity_rows() } }
}

fn chars(s: &str) -> Vec<char> {
    s.chars().collect()
}

fn built(p: usize, s: &str) -> NTree {
    let mut t = NTree::new(p, s.to_string());
    assert_eq!(t.build_from_newick(), Ok(()));
    t
}

fn in_alphabet(s: &Sequence) -> bool {
    s.nucleotides.iter().all(|b| BASES.contains(b))
}

#[test]
fn parse_two_tips_gives_three_nodes() {
    let t = built(10, "(A:0.5,B:0.5);");
    assert_eq!(t.get_size(), 3);
    assert_eq!(t.get_partition(), 10);
}

#[test]
fn parse_nested_tree_counts_nodes() {
    let t = built(1, "(A:0.1,(B:0.2,C:0.3):0.15);");
    assert_eq!(t.get_size(), 5);
    let nodes = parse_newick("(A:0.1,(B:0.2,C:0.3):0.15);").unwrap();
    assert_eq!(nodes.len(), 5);
    assert_eq!(nodes[0].parent, None);
    assert_eq!(nodes[1].id.as_deref(), Some("A"));
    assert_eq!(nodes[1].branch_length.as_deref(), Some("0.1"));
    assert_eq!(nodes[2].parent, Some(0));
    assert_eq!(nodes[3].parent, Some(2));
    assert_eq!(nodes[4].id.as_deref(), Some("C"));
    assert_eq!(nodes[2].branch_length.as_deref(), Some("0.15"));
}

#[test]
fn parse_single_node_and_trailing_text() {
    assert_eq!(parse_newick("A;").unwrap().len(), 1);
    // characters after the first ';' are ignored
    assert_eq!(parse_newick("(A,B);C;").unwrap().len(), 3);
}

#[test]
fn parse_trims_ids_and_lengths() {
    let nodes = parse_newick("( A : 0.5 ,B);").unwrap();
    assert_eq!(nodes[1].id.as_deref(), Some("A"));
    assert_eq!(nodes[1].branch_length.as_deref(), Some("0.5"));
    assert_eq!(nodes[0].id, None);
}

#[test]
fn parse_rejects_missing_terminator() {
    assert_eq!(parse_newick("(A:0.1,B:0.2)").err(), Some(ParseError::MissingTerminator));
    assert_eq!(parse_newick("").err(), Some(ParseError::MissingTerminator));
    assert_eq!(parse_newick("A;B").err(), Some(ParseError::MissingTerminator));
}

#[test]
fn parse_rejects_unbalanced() {
    assert_eq!(parse_newick("(A:0.1,B:0.2;").err(), Some(ParseError::Unbalanced));
}

#[test]
fn parse_rejects_bad_branch_length() {
    assert_eq!(parse_newick("(A:x,B:0.2);").err(), Some(ParseError::BadBranchLength));
    assert_eq!(parse_newick("(A:,B:0.2);").err(), Some(ParseError::BadBranchLength));
}

#[test]
fn parse_rejects_separator_outside_group() {
    assert_eq!(parse_newick("A,B;").err(), Some(ParseError::NoEnclosingGroup));
    assert_eq!(parse_newick("(A,B)),C;").err(), Some(ParseError::NoEnclosingGroup));
}

#[test]
fn build_twice_fails() {
    let mut t = built(4, "(A:1,B:2);");
    assert_eq!(t.build_from_newick(), Err(ParseError::AlreadyBuilt));
    assert_eq!(t.get_size(), 3);
}

#[test]
fn build_failure_leaves_tree_unbuilt() {
    let mut t = NTree::new(4, "(A:1,B:2".to_string());
    assert_eq!(t.build_from_newick(), Err(ParseError::MissingTerminator));
    assert_eq!(t.get_size(), 0);
}

#[test]
fn numbers_are_recognised() {
    for s in ["1", "0.5", ".5", "1.", "-0.1", "+2", "1e-5", "2.5E+3"] {
        assert!(check_number(&chars(s)), "{}", s);
    }
    for s in ["", "x", "e5", "1.2.3", "1e", "--1", ".", "1e5.0"] {
        assert!(!check_number(&chars(s)), "{}", s);
    }
}

#[test]
fn trimming_and_strings() {
    assert_eq!(trimmed(&chars("  ab c\t")), chars("ab c"));
    assert_eq!(trimmed(&chars("   ")), Vec::<char>::new());
    assert_eq!(string_of(&chars("xyz")), "xyz");
}

#[test]
fn cumulative_weights() {
    assert_eq!(get_cumulative(&uniform_table()), 4);
    assert_eq!(get_cumulative(&vec![(b'A', 2), (b'G', 3)]), 5);
}

#[test]
fn cumulative_choice() {
    let t = vec![(b'A', 2), (b'G', 3)];
    assert_eq!(choose_symbol(&t, 0), b'A');
    assert_eq!(choose_symbol(&t, 1), b'A');
    assert_eq!(choose_symbol(&t, 2), b'G');
    assert_eq!(choose_symbol(&t, 4), b'G');
}

#[test]
fn sequence_from_draws() {
    let s = Sequence::from_draws(&uniform_table(), &vec![0, 1, 2, 3, 3]);
    assert_eq!(s.to_string(), "AGCTT");
    assert_eq!(s.len(), 5);
    assert_eq!(s.get(2), b'C');
}

#[test]
fn random_sequence_stays_in_alphabet() {
    let mut s = Sequence::new(&uniform_table(), 200);
    assert_eq!(s.len(), 200);
    assert!(in_alphabet(&s));
    let before = s.nucleotides.clone();
    s.append(50);
    assert_eq!(s.len(), 250);
    assert_eq!(&s.nucleotides[..200], &before[..]);
    assert!(in_alphabet(&s));
}

#[test]
fn substitution_with_draws() {
    let sub = Substitution { bases: BASES, weights: [1, 1, 1, 1], rows: [[1, 1, 1, 1], [0, 2, 0, 2], [3, 0, 0, 1], [1, 1, 1, 1]] };
    let s = Sequence::from_vec(b"AGCT".to_vec(), &uniform_table());
    let r = sub.apply_with_draws(&s, &vec![2, 1, 3, 0]).unwrap();
    assert_eq!(r.to_string(), "CGTA");
}

#[test]
fn substitution_rejects_unknown_base() {
    let sub = Substitution { bases: BASES, weights: [1, 1, 1, 1], rows: identity_rows() };
    let s = Sequence::from_vec(b"AGXT".to_vec(), &vec![(b'A', 1), (b'G', 1), (b'C', 1), (b'X', 1), (b'T', 1)]);
    assert_eq!(sub.apply(&s).err(), Some(EvolveError::UnknownBase(b'X')));
}

#[test]
fn identity_substitution_keeps_every_site() {
    let sub = Substitution { bases: BASES, weights: [1, 1, 1, 1], rows: identity_rows() };
    let s = Sequence::new(&uniform_table(), 1000);
    let r = sub.apply(&s).unwrap();
    assert_eq!(r.nucleotides, s.nucleotides);
}

#[test]
fn row_totals() {
    let sub = Substitution { bases: BASES, weights: [1, 1, 1, 1], rows: [[7, 1, 1, 1], [1, 2, 3, 4], [0, 0, 5, 0], [1, 1, 1, 1]] };
    assert_eq!(sub.row_total(0), 10);
    assert_eq!(sub.row_total(1), 10);
    assert_eq!(sub.row_total(2), 5);
}

#[test]
fn two_tip_scenario() {
    let m = symmetric_model();
    let mut t = built(10, "(A:0.5,B:0.5);");
    assert_eq!(t.create_ancestral(&m), Ok(()));
    let h = t.dfs_evolve(&m).unwrap();
    let ids: Vec<&str> = h.iter().map(|(k, _)| k.as_str()).collect();
    assert_eq!(ids, vec!["A", "B"]);
    for (_, s) in &h {
        assert_eq!(s.len(), 10);
        assert!(in_alphabet(s));
    }
}

#[test]
fn evolve_reaches_every_tip() {
    let m = symmetric_model();
    let mut t = built(7, "((A:1,B:1):1,(C:1,(D:1,E:1):1):1);");
    t.create_ancestral(&m).unwrap();
    let h = t.dfs_evolve(&m).unwrap();
    let ids: Vec<&str> = h.iter().map(|(k, _)| k.as_str()).collect();
    assert_eq!(ids, vec!["A", "B", "C", "D", "E"]);
    assert!(h.iter().all(|(_, s)| s.len() == 7));
}

#[test]
fn identity_model_copies_root_to_tips() {
    let m = identity_model();
    let mut t = built(30, "(A:0.1,(B:0.2,C:0.3):0.15);");
    t.create_ancestral(&m).unwrap();
    let h = t.dfs_evolve(&m).unwrap();
    assert_eq!(h.len(), 3);
    assert_eq!(h[0].1.nucleotides, h[1].1.nucleotides);
    assert_eq!(h[1].1.nucleotides, h[2].1.nucleotides);
}

#[test]
fn evolve_errors() {
    let m = symmetric_model();
    let mut unbuilt = NTree::new(5, "(A,B);".to_string());
    assert_eq!(unbuilt.create_ancestral(&m), Err(EvolveError::NoRoot));
    assert_eq!(unbuilt.dfs_evolve(&m).err(), Some(EvolveError::NoRoot));
    let mut no_root_seq = built(5, "(A,B);");
    assert_eq!(no_root_seq.dfs_evolve(&m).err(), Some(EvolveError::NoAncestral));
    let mut unnamed = built(5, "(A:0.1,:0.2);");
    unnamed.create_ancestral(&m).unwrap();
    assert_eq!(unnamed.dfs_evolve(&m).err(), Some(EvolveError::UnnamedTip));
}

#[test]
fn assembly_keeps_partition_order() {
    let m = symmetric_model();
    let mut t1 = built(5, "(A:0.5,B:0.5);");
    let mut t2 = built(3, "(A:0.5,C:0.5);");
    t1.create_ancestral(&m).unwrap();
    t2.create_ancestral(&m).unwrap();
    let h1 = t1.dfs_evolve(&m).unwrap();
    let h2 = t2.dfs_evolve(&m).unwrap();
    let a1 = h1[0].1.nucleotides.clone();
    let a2 = h2[0].1.nucleotides.clone();
    let r = assemble(&vec![h1, h2]);
    let ids: Vec<&str> = r.iter().map(|(k, _)| k.as_str()).collect();
    assert_eq!(ids, vec!["A", "B", "C"]);
    assert_eq!(r[0].1.len(), 8);
    assert_eq!(&r[0].1[..5], &a1[..]);
    assert_eq!(&r[0].1[5..], &a2[..]);
    assert_eq!(r[1].1.len(), 5);
    assert_eq!(r[2].1.len(), 3);
}

#[test]
fn assembly_of_fixed_sequences() {
    let t = uniform_table();
    let h1 = vec![("A".to_string(), Sequence::from_vec(b"AAGG".to_vec(), &t))];
    let h2 = vec![("B".to_string(), Sequence::from_vec(b"CC".to_vec(), &t)), ("A".to_string(), Sequence::from_vec(b"TT".to_vec(), &t))];
    let r = assemble(&vec![h1, h2]);
    assert_eq!(r, vec![("A".to_string(), b"AAGGTT".to_vec()), ("B".to_string(), b"CC".to_vec())]);
}

#[test]
fn partition_lengths() {
    assert_eq!(parse_partition(&chars("10")), Some(10));
    assert_eq!(parse_partition(&chars("+250")), Some(250));
    assert_eq!(parse_partition(&chars(" 250")), None);
    assert_eq!(parse_partition(&chars("+")), None);
    assert_eq!(parse_partition(&chars("0")), Some(0));
    assert_eq!(parse_partition(&chars("")), None);
    assert_eq!(parse_partition(&chars("12a")), None);
    assert_eq!(parse_partition(&chars("-3")), None);
    assert_eq!(parse_partition(&chars("99999999999999999999999")), None);
    assert_eq!(parse_partition(&chars("18446744073709551615")), Some(usize::MAX));
}

#[test]
fn mutation_keeps_input_table() {
    let sub = Substitution { bases: BASES, weights: [1, 1, 1, 1], rows: identity_rows() };
    let t = vec![(b'A', 5), (b'G', 1), (b'C', 2), (b'T', 9)];
    let s = Sequence::from_vec(b"GATTACA".to_vec(), &t);
    let r = sub.apply(&s).unwrap();
    assert_eq!(r.table_vec(), t);
    assert_eq!(r.to_string(), "GATTACA");
}

#[test]
fn single_node_tree_evolves() {
    let m = symmetric_model();
    let mut t = built(6, "A;");
    t.create_ancestral(&m).unwrap();
    let h = t.dfs_evolve(&m).unwrap();
    assert_eq!(h.len(), 1);
    assert_eq!(h[0].0, "A");
    assert_eq!(h[0].1.len(), 6);
}

#[test]
fn tip_entries_match_tip_nodes() {
    let m = symmetric_model();
    let mut t = built(12, "((A:1,B:1):1,C:1);");
    t.create_ancestral(&m).unwrap();
    let h = t.dfs_evolve(&m).unwrap();
    let nodes = t.nodes();
    let tips: Vec<usize> = (0..nodes.len()).filter(|&i| !nodes.iter().any(|c| c.parent == Some(i))).collect();
    assert_eq!(tips.len(), h.len());
    for (q, &i) in tips.iter().enumerate() {
        assert_eq!(nodes[i].sequence.as_ref().unwrap().nucleotides, h[q].1.nucleotides);
    }
    assert!(nodes.iter().all(|n| n.sequence.as_ref().map(|s| s.len()) == Some(12)));
}
