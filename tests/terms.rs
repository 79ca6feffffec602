use std::cmp::Ordering;
use std::collections::HashMap;
use std::collections::HashSet;

use terms::{Atom, Family, Parented, Pattern, PatternKind, PatternLike, PatternLikeKind, Spawnable, Term, Var};

type P = Pattern<u32, u32>;

fn leaf(f: u32) -> Term<u32> {
    Term::new(f, vec![])
}

fn pvar(x: u32) -> P {
    Pattern::var(x)
}

fn pcons(f: u32, subs: Vec<P>) -> P {
    Pattern::cons(f, subs)
}

#[test]
fn term_accessors() {
    let t = Term::new(7u32, vec![leaf(1), leaf(2)]);
    assert_eq!(*t.symbol(), 7);
    assert_eq!(t.sub_terms().len(), 2);
    assert_eq!(*t.sub_terms()[1].symbol(), 2);
}

#[test]
fn term_depth() {
    assert_eq!(leaf(1).depth(), 0);
    let t = Term::new(1u32, vec![leaf(2), Term::new(3, vec![Term::new(4, vec![leaf(5)])])]);
    assert_eq!(t.depth(), 3);
}

#[test]
fn term_equality_is_structural() {
    let a = Term::new(1u32, vec![leaf(2), leaf(3)]);
    let b = Term::from_slice(1u32, &[leaf(2), leaf(3)]);
    let c = Term::new(1u32, vec![leaf(3), leaf(2)]);
    assert!(a == b);
    assert!(a != c);
    assert!(a.clone() == a);
}

#[test]
fn equal_terms_hash_equally() {
    let a = Term::new(1u32, vec![leaf(2), leaf(3)]);
    let b = Term::new(1u32, vec![leaf(2), leaf(3)]);
    assert_eq!(a.hash_code(), b.hash_code());
    assert_eq!(a.hash_code(), a.hash_code());
    assert!(a.hash_code() > 1);
    let mut set = HashSet::new();
    set.insert(a);
    assert!(set.contains(&b));
}

#[test]
fn hash_is_idempotent() {
    let a = Term::new(1u32, vec![leaf(2), Term::new(3, vec![leaf(4)])]);
    let first = a.hash_code();
    let second = a.hash_code();
    assert_eq!(first, second);
    let shared = a.clone();
    assert_eq!(shared.hash_code(), first);
}

#[test]
fn different_terms_usually_hash_differently() {
    let a = Term::new(1u32, vec![leaf(2), leaf(3)]);
    let c = Term::new(1u32, vec![leaf(3), leaf(2)]);
    assert_ne!(a.hash_code(), c.hash_code());
}

#[test]
fn term_order_depth_first() {
    let shallow = Term::new(9u32, vec![leaf(9)]);
    let deep = Term::new(1u32, vec![Term::new(1, vec![leaf(1)])]);
    assert_eq!(shallow.compare(&deep), Ordering::Less);
    assert_eq!(deep.compare(&shallow), Ordering::Greater);
}

#[test]
fn term_order_symbol_then_arity_then_children() {
    let a = Term::new(1u32, vec![leaf(5)]);
    let b = Term::new(2u32, vec![leaf(0)]);
    assert_eq!(a.compare(&b), Ordering::Less);
    let c = Term::new(1u32, vec![leaf(5), leaf(0)]);
    assert_eq!(a.compare(&c), Ordering::Less);
    let d = Term::new(1u32, vec![leaf(5), leaf(1)]);
    assert_eq!(c.compare(&d), Ordering::Less);
    assert_eq!(d.compare(&d.clone()), Ordering::Equal);
}

#[test]
fn term_order_is_transitive_on_samples() {
    let ts = vec![
        leaf(0),
        leaf(3),
        Term::new(0u32, vec![leaf(1)]),
        Term::new(0u32, vec![leaf(2)]),
        Term::new(1u32, vec![leaf(0)]),
        Term::new(0u32, vec![leaf(0), leaf(0)]),
        Term::new(0u32, vec![Term::new(0, vec![leaf(0)])]),
    ];
    for a in &ts {
        for b in &ts {
            let ab = a.compare(b);
            assert_eq!(ab.reverse(), b.compare(a));
            assert_eq!(ab == Ordering::Equal, a == b);
            for c in &ts {
                if ab == Ordering::Less && b.compare(c) == Ordering::Less {
                    assert_eq!(a.compare(c), Ordering::Less);
                }
            }
        }
    }
}

type Sym = (u32, u32);

fn well_formed(t: &Term<Sym>, alphabet: &[Sym]) -> bool {
    let s = t.symbol();
    alphabet.iter().any(|a| a.0 == s.0 && a.1 as usize == t.sub_terms().len())
        && t.sub_terms().iter().all(|c| well_formed(c, alphabet))
}

#[test]
fn random_terms_respect_alphabet_and_depth() {
    let alphabet = vec![(0, 0), (1, 1), (2, 2)];
    for max_depth in 0..5u64 {
        for _ in 0..20 {
            let t = Term::random(&alphabet, max_depth);
            assert!(t.depth() <= max_depth);
            assert!(well_formed(&t, &alphabet));
        }
    }
}

#[test]
fn random_at_depth_zero_is_a_constant() {
    let alphabet = vec![(0, 0), (1, 2)];
    for _ in 0..20 {
        let t = Term::random(&alphabet, 0);
        assert_eq!(t.symbol().0, 0);
        assert!(t.sub_terms().is_empty());
    }
}

#[test]
fn pattern_accessors() {
    let p = pcons(1, vec![pvar(10), pcons(2, vec![])]);
    assert_eq!(p.symbol(), Some(&1));
    assert_eq!(p.sub_patterns().map(|v| v.len()), Some(2));
    assert!(p.get(0) == Some(&pvar(10)));
    assert!(p.get(2).is_none());
    let v = pvar(3);
    assert!(v.symbol().is_none());
    assert!(v.sub_patterns().is_none());
    assert!(v.get(0).is_none());
    assert!(v.as_cons().is_none());
    let (f, subs) = p.as_cons().unwrap();
    assert_eq!(*f, 1);
    assert_eq!(subs.len(), 2);
}

#[test]
fn pattern_equality_is_variant_aware() {
    let a = pcons(1, vec![pvar(4)]);
    let b = Pattern::from_slice(1, &[pvar(4)]);
    assert!(a == b);
    assert!(pvar(4) != pcons(4, vec![]));
    assert!(pvar(4) == pvar(4));
    assert!(pvar(4) != pvar(5));
    assert_eq!(a.hash_code(), b.hash_code());
}

#[test]
fn as_term_ground_and_open() {
    let open = pcons(1, vec![pcons(2, vec![]), pvar(0)]);
    assert!(open.as_term().is_none());
    let ground = pcons(1, vec![pcons(2, vec![]), pcons(3, vec![])]);
    let t = ground.as_term().unwrap();
    assert!(t == Term::new(1u32, vec![leaf(2), leaf(3)]));
}

#[test]
fn variables_unique_in_first_occurrence_order() {
    let p = pcons(1, vec![pvar(7), pcons(2, vec![pvar(3), pvar(7)]), pvar(3), pvar(9)]);
    let mut it = p.variables();
    let mut seen = Vec::new();
    while let Some(x) = it.next() {
        seen.push(*x);
    }
    assert_eq!(seen, vec![7, 3, 9]);
    assert!(it.next().is_none());
    assert_eq!(p.variables().to_vec().len(), 3);
    assert!(pcons(1, vec![]).variables().next().is_none());
}

#[test]
fn map_variables_replaces_every_leaf() {
    let p = pcons(1, vec![pvar(1), pcons(2, vec![pvar(2), pvar(1)])]);
    let q: Pattern<u32, u32> = p.map_variables(&|x: &u32| Pattern::var(*x + 100));
    assert!(q == pcons(1, vec![pvar(101), pcons(2, vec![pvar(102), pvar(101)])]));
    let g = p.map_variables(&|x: &u32| pcons(50 + *x, vec![]));
    assert!(g.as_term().is_some());
    assert!(g.variables().next().is_none());
}

#[test]
fn try_map_variables_all_or_nothing() {
    let p = pcons(1, vec![pvar(1), pcons(2, vec![pvar(2)])]);
    let some = p.try_map_variables(&|x: &u32| Some(Pattern::<u32, u32>::var(*x * 2)));
    assert!(some.unwrap() == pcons(1, vec![pvar(2), pcons(2, vec![pvar(4)])]));
    let none = p.try_map_variables(&|x: &u32| if *x == 2 { None } else { Some(Pattern::<u32, u32>::var(*x)) });
    assert!(none.is_none());
}

#[test]
fn reindex_scenario() {
    let x = 5u32;
    let y = 7u32;
    let p = pcons(0, vec![pvar(x), pcons(1, vec![pvar(y), pvar(x)])]);
    let r = p.reindex();
    assert!(r == pcons(0, vec![pvar(0), pcons(1, vec![pvar(1), pvar(0)])]));
}

#[test]
fn reindex_sorts_by_value_and_is_dense() {
    let p = pcons(0, vec![pvar(90), pvar(40), pvar(90), pvar(60)]);
    let r = p.reindex();
    assert!(r == pcons(0, vec![pvar(2), pvar(0), pvar(2), pvar(1)]));
    let r8: Pattern<u32, u8> = Pattern::cons(0, vec![Pattern::var(200u8), Pattern::var(7u8)]).reindex();
    assert!(r8 == Pattern::cons(0, vec![Pattern::var(1u8), Pattern::var(0u8)]));
}

#[test]
fn renaming_scenario() {
    let (x, y, a, b) = (1u32, 2u32, 3u32, 4u32);
    let p = pcons(0, vec![pvar(x), pvar(y)]);
    let mut m = HashMap::new();
    assert!(p.renaming(&pcons(0, vec![pvar(a), pvar(b)]), &mut m));
    assert_eq!(m.len(), 2);
    assert_eq!(m[&1], 3);
    assert_eq!(m[&2], 4);
}

#[test]
fn renaming_inconsistent_fails() {
    let p = pcons(0, vec![pvar(1), pvar(2)]);
    let mut m = HashMap::new();
    assert!(!p.renaming(&pcons(0, vec![pvar(2), pvar(1)]), &mut m));
    assert_eq!(m.get(&1), Some(&2));
    let q = pcons(0, vec![pvar(1), pvar(1)]);
    let mut m2 = HashMap::new();
    assert!(!q.renaming(&pcons(0, vec![pvar(3), pvar(4)]), &mut m2));
}

#[test]
fn renaming_structural_mismatch() {
    let mut m = HashMap::new();
    assert!(!pcons(0, vec![pvar(1)]).renaming(&pcons(1, vec![pvar(1)]), &mut m));
    assert!(!pcons(0, vec![pvar(1)]).renaming(&pcons(0, vec![pvar(1), pvar(2)]), &mut m));
    assert!(!pvar(1).renaming(&pcons(0, vec![]), &mut m));
    assert!(m.is_empty());
}

#[test]
fn renaming_reflexive() {
    let p = pcons(0, vec![pvar(4), pcons(1, vec![pvar(2), pvar(4)])]);
    let mut m = HashMap::new();
    assert!(p.renaming(&p, &mut m));
    assert_eq!(m.len(), 2);
    assert_eq!(m[&4], 4);
    assert_eq!(m[&2], 2);
}

#[test]
fn var_namespace_spawn_and_from() {
    let mut ns: u32 = 0;
    let a = Var::spawn(&mut ns);
    let b = Var::spawn(&mut ns);
    assert_eq!(a.id(), 0);
    assert_eq!(b.id(), 1);
    assert_eq!(ns, 2);
    let c = Var::from(10u32, &mut ns);
    assert_eq!(c.id(), 10);
    assert_eq!(ns, 11);
    let d = Var::from(3u32, &mut ns);
    assert_eq!(d.id(), 3);
    assert_eq!(ns, 11);
    let e = Var::spawn(&mut ns);
    assert_eq!(e.id(), 11);
    assert!(a != b);
    assert!(a == Var::from(0u32, &mut ns));
}

#[test]
fn parented_generation_and_ancestry() {
    let mut ns: u64 = 0;
    let root: Parented<Var<u64>> = Parented::spawn(&mut ns);
    let child = root.generate(&mut ns);
    let grandchild = child.generate(&mut ns);
    let other = root.generate(&mut ns);
    assert!(grandchild.is_descendent_of(&root));
    assert!(grandchild.is_descendent_of(&child));
    assert!(grandchild.is_descendent_of(&grandchild));
    assert!(!grandchild.is_descendent_of(&other));
    assert!(!root.is_descendent_of(&child));
    assert!(root.is_parent_of(&grandchild));
    assert!(!other.is_parent_of(&grandchild));
    assert_eq!(ns, 4);
    assert_eq!(grandchild.code(), 2);
    assert!(root.clone() == root);
    assert!(Parented::root(Var::from(3u64, &mut ns)) == other);
}

#[test]
fn pattern_like_reads_terms_and_patterns() {
    let t = Term::new(4u32, vec![leaf(1)]);
    match PatternLike::<u32, u32>::kind(&t) {
        PatternLikeKind::Cons(f, subs) => {
            assert_eq!(*f, 4);
            assert_eq!(subs.len(), 1);
        }
        PatternLikeKind::Var(_) => panic!("a term has no variable"),
    }
    let v = pvar(8);
    match PatternLike::<u32, u32>::kind(&v) {
        PatternLikeKind::Var(x) => assert_eq!(*x, 8),
        PatternLikeKind::Cons(_, _) => panic!("expected a variable"),
    }
    match v.kind() {
        PatternKind::Var(x) => assert_eq!(*x, 8),
        PatternKind::Cons(_, _) => panic!("expected a variable"),
    }
    assert!(matches!(v.into_kind(), PatternKind::Var(8)));
}

#[test]
fn ground_pattern_hashes_like_its_term() {
    let p = pcons(1, vec![pcons(2, vec![]), pcons(3, vec![pcons(4, vec![])])]);
    let t = p.as_term().unwrap();
    assert_eq!(p.hash_code(), t.hash_code());
    assert_eq!(p.hash_code(), t.hash_code());
}

#[test]
fn reindex_ground_pattern_is_unchanged() {
    let p = pcons(1, vec![pcons(2, vec![])]);
    assert!(p.reindex() == p);
}

#[test]
fn reindex_fills_the_whole_index_type() {
    let subs: Vec<Pattern<u32, u8>> = (0..=255u8).rev().map(Pattern::var).collect();
    let p: Pattern<u32, u8> = Pattern::cons(0, subs);
    let r = p.reindex();
    let expected: Vec<Pattern<u32, u8>> = (0..=255u8).rev().map(Pattern::var).collect();
    assert!(r == Pattern::cons(0, expected));
    let q: Pattern<u32, u8> = Pattern::cons(0, vec![Pattern::var(255u8), Pattern::var(128u8)]);
    assert!(q.reindex() == Pattern::cons(0, vec![Pattern::var(1u8), Pattern::var(0u8)]));
}

#[test]
fn renaming_extends_existing_bindings() {
    let p = pcons(0, vec![pvar(1), pvar(2)]);
    let mut m = HashMap::new();
    m.insert(1u64, 5u64);
    assert!(!p.renaming(&pcons(0, vec![pvar(6), pvar(7)]), &mut m));
    let mut m2 = HashMap::new();
    m2.insert(1u64, 6u64);
    assert!(p.renaming(&pcons(0, vec![pvar(6), pvar(7)]), &mut m2));
    assert_eq!(m2[&2], 7);
}

#[test]
fn renaming_refuses_downward_binding() {
    let mut m = HashMap::new();
    assert!(!pvar(9).renaming(&pvar(3), &mut m));
    assert!(m.is_empty());
    assert!(pvar(3).renaming(&pvar(9), &mut m));
    assert_eq!(m[&3], 9);
}

#[test]
fn signed_counters_keep_their_order() {
    let mut ns: i32 = -3;
    let a = Var::spawn(&mut ns);
    let b = Var::spawn(&mut ns);
    assert_eq!(a.id(), -3);
    assert_eq!(b.id(), -2);
    assert!(a < b);
    assert!(a.code() < b.code());
    let c = Var::from(-10i32, &mut ns);
    assert_eq!(ns, -1);
    assert!(c < a);
}

#[test]
fn symbol_codes() {
    assert_eq!(7u8.code(), 7);
    assert_eq!('a'.code(), 97);
    assert_eq!(true.code(), 1);
    assert!((-1i32).code() < 0i32.code());
    assert_eq!((9u32, 2u32).code(), (9u64 << 32) + 2);
    assert!((9u32, 2u32).code() != (9u32, 3u32).code());
    assert!((9u32, 7u32).code() < (10u32, 0u32).code());
}

#[test]
fn pick_symbol_uses_the_drawn_index() {
    let zeros: Vec<Sym> = vec![(0, 0), (5, 0)];
    let alphabet: Vec<Sym> = vec![(0, 0), (1, 1), (2, 2), (5, 0)];
    assert_eq!(Term::pick_symbol(&zeros, &alphabet, 0, 3), (5, 0));
    assert_eq!(Term::pick_symbol(&zeros, &alphabet, 0, 4), (0, 0));
    assert_eq!(Term::pick_symbol(&zeros, &alphabet, 2, 6), (2, 2));
    assert_eq!(Term::pick_symbol(&zeros, &alphabet, 1, 9), (1, 1));
}

#[test]
fn clones_hash_like_their_originals() {
    let t = Term::new(1u32, vec![leaf(2), Term::new(3, vec![leaf(4)])]);
    assert_eq!(t.clone().hash_code(), t.hash_code());
    let p = pcons(1, vec![pvar(2), pcons(3, vec![pvar(2)])]);
    assert_eq!(p.clone().hash_code(), p.hash_code());
    let rebuilt = pcons(1, vec![pvar(2), pcons(3, vec![pvar(2)])]);
    assert_eq!(rebuilt.hash_code(), p.hash_code());
    assert!(pvar(2).hash_code() > 1);
    assert!(pvar(2).hash_code() != pvar(3).hash_code());
}

#[test]
fn random_with_given_draws_is_deterministic() {
    let alphabet: Vec<Sym> = vec![(0, 0), (1, 1), (2, 2)];
    let next = std::cell::Cell::new(0usize);
    let draws = [2usize, 1, 0, 3, 0];
    let draw = || {
        let k = next.get();
        next.set(k + 1);
        draws[k % draws.len()]
    };
    // Root draws 2 -> (2, 2); its first child draws 1 -> (1, 1), whose child at
    // depth 0 draws 0 -> the constant (0, 0); the root's second child draws 3
    // -> (0, 0).
    let t = Term::random_with(&alphabet, 2, &draw);
    let expected = Term::new((2u32, 2u32), vec![
        Term::new((1, 1), vec![Term::new((0, 0), vec![])]),
        Term::new((0, 0), vec![]),
    ]);
    assert!(t == expected);
    assert_eq!(next.get(), 4);
}

#[test]
fn substitution_defined_on_the_pattern_only() {
    let p = pcons(1, vec![pvar(4), pcons(2, vec![pvar(9)])]);
    let known = [4u32, 9];
    let q: Pattern<u32, u32> = p.map_variables(&|x: &u32| {
        let k = known.iter().position(|v| v == x).unwrap();
        Pattern::var(k as u32)
    });
    assert!(q == pcons(1, vec![pvar(0), pcons(2, vec![pvar(1)])]));
    let r = p.try_map_variables(&|x: &u32| if *x == 4 { Some(pcons(7, vec![])) } else { None });
    assert!(r.is_none());
}

#[test]
fn patterns_from_variables_and_kinds() {
    let p: P = Pattern::from(3u32);
    assert!(p == pvar(3));
    let k: PatternKind<u32, u32> = pcons(1, vec![pvar(2)]).into_kind();
    let q: P = Pattern::from(k);
    assert!(q == pcons(1, vec![pvar(2)]));
    assert_eq!(q.hash_code(), pcons(1, vec![pvar(2)]).hash_code());
}

#[test]
fn parented_value_and_self_descent() {
    let mut ns: u32 = 5;
    let root: Parented<Var<u32>> = Parented::spawn(&mut ns);
    assert_eq!(root.value().id(), 5);
    assert!(root.is_descendent_of(&root));
    let child = root.generate(&mut ns);
    assert_eq!(child.value().id(), 6);
    assert!(child.is_descendent_of(&root));
    assert!(root.is_parent_of(&child));
    assert!(child != root);
    assert!(!root.is_descendent_of(&child));
}
