use layerstack::dictionary::combine_dictionary_chain;
use layerstack::doc::Value;
use layerstack::fields::{ListItem, ListOp};
use layerstack::interner::{TokenId, TokenInterner};
use layerstack::lists::resolve_list_chain;
use layerstack::order::{compare_dictionary, compare_text, Order};
use layerstack::stage::roles::{
    apply_chain, apply_strongest_wins, explain_merge, new_roles, ChainKind, Contribution,
    IgnoreCause, OpinionRole,
};
use layerstack::text::{bytes_of, decimal_text};
use layerstack::variable_expression::{
    ExpressionValue, ExpressionVariables, VariableExpression,
};
use opinionated::DictionaryAdapter;

/// Numbers that look random and are the same on every run.
struct Numbers(u64);

impl Numbers {
    fn below(&mut self, bound: u64) -> u64 {
        self.0 = self
            .0
            .wrapping_mul(6364136223846793005)
            .wrapping_add(1442695040888963407);
        (self.0 >> 33) % bound
    }
}

// ── Lists ───────────────────────────────────────────────────────────────

fn items(numbers: &[usize]) -> Vec<ListItem> {
    numbers
        .iter()
        .map(|&index| ListItem::Token(TokenId { index }))
        .collect()
}

fn own_op(op: &opinionated::ListOp<usize>) -> ListOp {
    ListOp {
        explicit: op.explicit.as_ref().map(|list| items(list)),
        prepend: items(&op.prepend),
        append: items(&op.append),
        delete: items(&op.delete),
        add: items(&op.add),
        reorder: items(&op.reorder),
    }
}

fn resolved(ops: &[opinionated::ListOp<usize>]) -> Vec<usize> {
    resolve_list_chain(&ops.iter().map(own_op).collect())
        .iter()
        .map(|item| match item {
            ListItem::Token(token) => token.index,
            other => panic!("{other:?}"),
        })
        .collect()
}

#[test]
fn list_chains_resolve_as_their_edits_say() {
    let edit = opinionated::ListOp::<usize>::default;
    let base = opinionated::ListOp {
        explicit: Some(vec![1, 2, 3, 2]),
        ..edit()
    };
    assert_eq!(resolved(&[]), Vec::<usize>::new());
    assert_eq!(resolved(&[base.clone()]), [1, 2, 3]);
    let stronger = opinionated::ListOp {
        prepend: vec![3, 4],
        append: vec![1],
        delete: vec![2],
        ..edit()
    };
    assert_eq!(resolved(&[stronger.clone(), base.clone()]), [3, 4, 1]);
    // A replacement hides what is weaker.
    let hiding = opinionated::ListOp {
        explicit: Some(vec![9]),
        ..edit()
    };
    assert_eq!(resolved(&[hiding, stronger, base]), [9]);
}

#[test]
fn list_chains_agree_with_the_list_edits_they_number() {
    let mut numbers = Numbers(1);
    for _ in 0..300 {
        let count = numbers.below(4);
        let ops: Vec<opinionated::ListOp<usize>> = (0..count)
            .map(|_| {
                let mut list = |most: u64| -> Vec<usize> {
                    let length = numbers.below(most);
                    (0..length).map(|_| numbers.below(6) as usize).collect()
                };
                let (prepend, append, delete) = (list(4), list(4), list(3));
                let (add, reorder, whole) = (list(3), list(4), list(5));
                opinionated::ListOp {
                    explicit: if numbers.below(4) == 0 {
                        Some(whole)
                    } else {
                        None
                    },
                    prepend,
                    append,
                    delete,
                    add,
                    reorder,
                }
            })
            .collect();
        assert_eq!(
            resolved(&ops),
            opinionated::resolve_list_chain(&[], ops.iter()),
            "{ops:?}"
        );
    }
}

// ── Dictionaries ────────────────────────────────────────────────────────

#[derive(Clone, Debug, PartialEq)]
enum Tree {
    Leaf(i32),
    Branch(Vec<(String, Tree)>),
}

struct Trees;

impl DictionaryAdapter<String, Tree> for Trees {
    fn entries<'v>(&self, value: &'v Tree) -> Option<&'v [(String, Tree)]> {
        match value {
            Tree::Branch(entries) => Some(entries),
            Tree::Leaf(_) => None,
        }
    }

    fn dictionary(&self, entries: Vec<(String, Tree)>) -> Tree {
        Tree::Branch(entries)
    }
}

fn own_entries(entries: &[(String, Tree)]) -> Vec<(String, Value)> {
    entries
        .iter()
        .map(|(key, tree)| {
            let value = match tree {
                Tree::Leaf(value) => Value::Int(*value),
                Tree::Branch(entries) => Value::Dictionary(own_entries(entries)),
            };
            (key.clone(), value)
        })
        .collect()
}

fn tree(numbers: &mut Numbers, depth: u32) -> Vec<(String, Tree)> {
    let keys = ["b", "a", "c", "aa"];
    let count = numbers.below(4);
    let mut out: Vec<(String, Tree)> = Vec::new();
    for _ in 0..count {
        let key = keys[numbers.below(4) as usize].to_string();
        if out.iter().any(|(other, _)| *other == key) {
            continue;
        }
        let value = if depth > 0 && numbers.below(2) == 0 {
            Tree::Branch(tree(numbers, depth - 1))
        } else {
            Tree::Leaf(numbers.below(100) as i32)
        };
        out.push((key, value));
    }
    out
}

#[test]
fn dictionaries_combine_as_the_nested_merge_does() {
    let mut numbers = Numbers(7);
    for _ in 0..300 {
        let count = numbers.below(4);
        let chain: Vec<Vec<(String, Tree)>> = (0..count).map(|_| tree(&mut numbers, 2)).collect();
        let own: Vec<Vec<(String, Value)>> = chain.iter().map(|d| own_entries(d)).collect();
        let combined = combine_dictionary_chain(&own.iter().collect());
        let expected = opinionated::combine_dictionary_chain(&Trees, chain.iter());
        assert_eq!(combined, own_entries(&expected), "{chain:?}");
    }
}

#[test]
fn merges_say_where_each_entry_comes_from() {
    let mut numbers = Numbers(11);
    for _ in 0..200 {
        let chain: Vec<Vec<(String, Tree)>> = (0..3).map(|_| tree(&mut numbers, 2)).collect();
        let own: Vec<Vec<(String, Value)>> = chain.iter().map(|d| own_entries(d)).collect();
        let refs: Vec<&Vec<(String, Value)>> = own.iter().collect();
        let report = opinionated::combine_dictionary_chain_report(
            &Trees,
            chain.iter().enumerate().map(|(i, d)| (d, i)),
        );
        for at in 0..3 {
            let (mut supplied, mut merged, mut overridden) = (Vec::new(), Vec::new(), Vec::new());
            for event in &report.events {
                let (list, place, path) = match event {
                    opinionated::DictionaryEvent::Supplied {
                        provenance,
                        key_path,
                    } => (&mut supplied, provenance, key_path),
                    opinionated::DictionaryEvent::Merged {
                        provenance,
                        key_path,
                    } => (&mut merged, provenance, key_path),
                    opinionated::DictionaryEvent::Overridden {
                        provenance,
                        key_path,
                    } => (&mut overridden, provenance, key_path),
                };
                if *place == at {
                    list.push(path.clone());
                }
            }
            let merge = explain_merge(&refs, at);
            let sorted = |mut paths: Vec<Vec<String>>| {
                paths.sort();
                paths
            };
            assert_eq!(sorted(merge.supplied), sorted(supplied), "{chain:?} {at}");
            assert_eq!(sorted(merge.merged), sorted(merged), "{chain:?} {at}");
            assert_eq!(
                sorted(merge.overridden),
                sorted(overridden),
                "{chain:?} {at}"
            );
        }
    }
}

// ── Roles ───────────────────────────────────────────────────────────────

fn role_letters(kinds: &[ChainKind]) -> String {
    let mut roles = new_roles(kinds.len());
    apply_chain(
        &mut roles,
        &(0..kinds.len()).collect(),
        &kinds.to_vec(),
    );
    letters(&roles)
}

fn letters(roles: &[Option<OpinionRole>]) -> String {
    roles
        .iter()
        .map(|role| match role {
            None => '-',
            Some(OpinionRole::Contributed(Contribution::Value)) => 'v',
            Some(OpinionRole::Contributed(Contribution::ListEdit)) => 'l',
            Some(OpinionRole::Contributed(Contribution::Dictionary(_))) => 'd',
            Some(OpinionRole::Contributed(Contribution::ArrayEdit)) => 'e',
            Some(OpinionRole::Block) => 'b',
            Some(OpinionRole::Ignored(IgnoreCause::Shadowed)) => 's',
            Some(OpinionRole::Ignored(IgnoreCause::CutOffByBlock)) => 'c',
            Some(OpinionRole::Ignored(IgnoreCause::Incompatible)) => 'i',
        })
        .collect()
}

#[test]
fn ordered_chains_give_each_member_a_role() {
    let [plain, block, edit] = [ChainKind::Plain, ChainKind::Block, ChainKind::Edit];
    let [replacement, dictionary] = [ChainKind::Replacement, ChainKind::Dictionary];
    assert_eq!(role_letters(&[]), "");
    assert_eq!(role_letters(&[plain, block, edit]), "vss");
    assert_eq!(role_letters(&[block, plain]), "bc");
    assert_eq!(role_letters(&[edit, replacement, edit, plain]), "llss");
    assert_eq!(role_letters(&[edit, plain, edit, block, edit]), "lilbc");
    assert_eq!(
        role_letters(&[dictionary, edit, replacement, dictionary, block, dictionary]),
        "diidbc"
    );
}

#[test]
fn the_strongest_value_hides_the_rest() {
    assert_eq!(
        letters(&apply_strongest_wins(&vec![false, true, true, false], false)),
        "-vs-"
    );
    assert_eq!(
        letters(&apply_strongest_wins(&vec![true, false, true], true)),
        "b-c"
    );
}

// ── Texts ───────────────────────────────────────────────────────────────

#[test]
fn bytes_decode_to_the_text_they_came_from() {
    let bytes = bytes_of("a\u{e9}z");
    assert_eq!(bytes, [97, 195, 169, 122]);
    let said = |text: &str| {
        VariableExpression::parse(text)
            .evaluate(&ExpressionVariables::new())
            .value
    };
    let string = |text: &str| Some(ExpressionValue::String(text.to_string()));
    assert_eq!(said("`'a\u{e9}z'`"), string("a\u{e9}z"));
    assert_eq!(said("`'a\\xc3\\xa9z'`"), string("a\u{e9}z"));
    assert_eq!(said("`'a\\xc3'`"), string("a\u{fffd}"));
    assert_eq!(decimal_text(0), "0");
    assert_eq!(decimal_text(u64::MAX), "18446744073709551615");
}

#[test]
fn texts_compare_by_character_and_by_dictionary() {
    assert_eq!(compare_text("a", "b"), Order::Less);
    assert_eq!(compare_text("b", "B"), Order::Greater);
    assert_eq!(compare_text("ab", "ab"), Order::Equal);
    // Numbers compare by value, and letters whatever their case.
    assert_eq!(compare_dictionary("item2", "item10"), Order::Less);
    assert_eq!(compare_dictionary("b", "C"), Order::Less);
    assert_eq!(compare_dictionary("a1", "a1"), Order::Equal);
}

#[test]
fn interned_names_are_found_by_name() {
    let mut tokens = TokenInterner::default();
    assert!(tokens.is_empty());
    let ids: Vec<TokenId> = (0..50).map(|i| tokens.intern(&format!("n{i}"))).collect();
    assert_eq!(tokens.len(), 50);
    for (i, id) in ids.iter().enumerate() {
        assert_eq!(tokens.lookup(&format!("n{i}")), Some(*id));
        assert_eq!(tokens.intern(&format!("n{i}")), *id);
        assert_eq!(tokens.resolve(*id), format!("n{i}"));
    }
    assert_eq!(tokens.lookup("absent"), None);
}
