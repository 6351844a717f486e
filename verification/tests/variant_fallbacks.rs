use layerstack::interner::{TokenId, TokenInterner};
use layerstack::path::PathId;
use layerstack::prim_index_graph::PrimIndexGraph;
use layerstack::stage::{PrimIndex, Stage};
use layerstack::variant_fallbacks::{
    apply_variant_fallbacks, selected, VariantBranch, VariantFallbacks, VariantSpecs,
};

fn branch(set: TokenId, variant: TokenId, selections: Vec<(TokenId, TokenId)>) -> VariantBranch {
    VariantBranch {
        set,
        variant,
        selections,
    }
}

/// What the variant set `shape` of a block, with a cube of six sides and a
/// sphere of none, composes `sides` to.
fn sides(fallbacks: &[&str], authored: Option<&str>) -> Option<i32> {
    let mut tokens = TokenInterner::default();
    let shape = tokens.intern("shape");
    let (cube, sphere) = (tokens.intern("cube"), tokens.intern("sphere"));
    let names: Vec<TokenId> = fallbacks.iter().map(|name| tokens.intern(name)).collect();
    let mut selections: Vec<(TokenId, TokenId)> = authored
        .map(|name| (shape, tokens.intern(name)))
        .into_iter()
        .collect();
    let specs = vec![VariantSpecs {
        set_order: vec![shape],
        branches: vec![
            branch(shape, cube, Vec::new()),
            branch(shape, sphere, Vec::new()),
        ],
    }];
    let fallbacks: VariantFallbacks = vec![(shape, names)];
    apply_variant_fallbacks(&fallbacks, &mut selections, &specs);
    selected(&selections, shape).map(|variant| if variant == cube { 6 } else { 0 })
}

#[test]
fn first_fallback_naming_a_variant_applies_without_a_selection() {
    assert_eq!(sides(&[], None), None);
    assert_eq!(sides(&["cone", "cube"], None), Some(6));
    assert_eq!(sides(&["cone"], None), None);
    assert_eq!(sides(&["cube"], Some("sphere")), Some(0));
}

/// The selections of a mast that declares the variant sets `shape` then `size`
/// (or `size` then `shape`, `size_declared_first`), whose `shape=cube` branch
/// selects `size=small`, with the fallbacks `shape=[cube]` and `size=[large,
/// small]`. `size_first` interns `size` before `shape`.
fn mast(size_first: bool, size_declared_first: bool) -> (i32, String) {
    let mut tokens = TokenInterner::default();
    let (shape, size) = if size_first {
        let size = tokens.intern("size");
        (tokens.intern("shape"), size)
    } else {
        let shape = tokens.intern("shape");
        (shape, tokens.intern("size"))
    };
    let [cube, sphere, small, large] =
        ["cube", "sphere", "small", "large"].map(|t| tokens.intern(t));
    let specs = vec![VariantSpecs {
        set_order: if size_declared_first {
            vec![size, shape]
        } else {
            vec![shape, size]
        },
        branches: vec![
            branch(shape, cube, vec![(size, small)]),
            branch(shape, sphere, Vec::new()),
            branch(size, small, Vec::new()),
            branch(size, large, Vec::new()),
        ],
    }];
    let fallbacks: VariantFallbacks = vec![(shape, vec![cube]), (size, vec![large, small])];
    let mut selections = Vec::new();
    apply_variant_fallbacks(&fallbacks, &mut selections, &specs);
    let scale = match selected(&selections, size) {
        Some(variant) if variant == small => 1,
        Some(variant) if variant == large => 2,
        _ => 0,
    };
    let mut shown: Vec<String> = selections
        .iter()
        .map(|(set, variant)| format!("{}={}", tokens.resolve(*set), tokens.resolve(*variant)))
        .collect();
    shown.sort();
    (scale, shown.join(","))
}

#[test]
fn fallback_order_follows_declared_sets_not_token_order() {
    let cases = [
        (false, 1, "shape=cube,size=small"),
        (true, 2, "shape=cube,size=large"),
    ];
    for (size_declared_first, scale, selections) in cases {
        for size_first in [false, true] {
            let case =
                format!("size interned first {size_first}, declared first {size_declared_first}");
            let (value, composed) = mast(size_first, size_declared_first);
            assert_eq!(value, scale, "{case}");
            assert_eq!(composed, selections, "{case}");
        }
    }
}

#[test]
fn branches_without_fallbacks_select_nothing() {
    let mut tokens = TokenInterner::default();
    let (shape, cube) = (tokens.intern("shape"), tokens.intern("cube"));
    let specs = vec![VariantSpecs {
        set_order: vec![shape],
        branches: vec![branch(shape, cube, Vec::new())],
    }];
    let mut selections = Vec::new();
    apply_variant_fallbacks(&Vec::new(), &mut selections, &specs);
    assert!(selections.is_empty());
}

#[test]
fn selections_inside_a_fallback_branch_are_followed() {
    let mut tokens = TokenInterner::default();
    let [shape, size, finish, cube, small, matte] =
        ["shape", "size", "finish", "cube", "small", "matte"].map(|t| tokens.intern(t));
    let specs = vec![
        VariantSpecs {
            set_order: vec![shape],
            branches: vec![branch(shape, cube, vec![(size, small)])],
        },
        VariantSpecs {
            set_order: vec![size],
            branches: vec![branch(size, small, vec![(finish, matte)])],
        },
    ];
    let mut selections = Vec::new();
    apply_variant_fallbacks(&vec![(shape, vec![cube])], &mut selections, &specs);
    assert_eq!(
        selections,
        vec![(shape, cube), (size, small), (finish, matte)]
    );
    assert_eq!(selected(&selections, finish), Some(matte));
}

#[test]
fn stages_report_authored_selections_before_fallbacks() {
    let mut tokens = TokenInterner::default();
    let [shape, size, cube, sphere, small] =
        ["shape", "size", "cube", "sphere", "small"].map(|t| tokens.intern(t));
    let (prim, absent) = (PathId { index: 0 }, PathId { index: 1 });
    let index = PrimIndex {
        sources: Vec::new(),
        graph: PrimIndexGraph::default(),
        metadata: Vec::new(),
        properties: Vec::new(),
    };
    let stage = Stage::from_parts(vec![(prim, index)], Vec::new(), false)
        .with_variant_fallbacks(vec![(shape, vec![cube]), (size, vec![small])]);
    let specs = vec![VariantSpecs {
        set_order: vec![shape, size],
        branches: vec![
            branch(shape, cube, Vec::new()),
            branch(size, small, Vec::new()),
        ],
    }];
    // The strongest selection stands, though no variant has its name.
    let authored = vec![(shape, sphere), (shape, cube)];
    assert_eq!(
        stage.variant_selections(prim, &authored, &specs),
        vec![(shape, sphere), (size, small)]
    );
    assert!(stage.variant_selections(absent, &authored, &specs).is_empty());
}
