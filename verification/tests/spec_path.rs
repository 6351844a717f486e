use layerstack::interner::TokenInterner;
use layerstack::path::{Path, PathError, PathInterner, PropertyPath};
use layerstack::spec_path::{SpecComponent, SpecPath, SpecPathError, VariantSelectionSite};

#[test]
fn from_variant_qualified_prim_path_formats_expected_string() {
    let mut tokens = TokenInterner::default();
    let mut paths = PathInterner::default();
    let host = paths.intern(Path::parse_absolute("/Sarah", &mut tokens).expect("path"));
    let concrete = paths
        .intern(Path::parse_absolute("/Sarah/FaceRig/EyesRig", &mut tokens).expect("path"));
    let selection = (tokens.intern("modelComplexity"), tokens.intern("full"));

    let spec = SpecPath::from_variant_qualified_prim_path(concrete, host, &[selection], &paths);

    assert_eq!(
        spec.display(&tokens),
        "/Sarah{modelComplexity=full}FaceRig/EyesRig"
    );
    assert_eq!(spec.prim_path(), concrete);
}

#[test]
fn from_variant_selection_sites_supports_multiple_hosts() {
    let mut tokens = TokenInterner::default();
    let mut paths = PathInterner::default();
    let foo = paths.intern(Path::parse_absolute("/Foo", &mut tokens).expect("path"));
    let foo_a_number =
        paths.intern(Path::parse_absolute("/Foo/A/Number", &mut tokens).expect("path"));
    let which = tokens.intern("which");
    let a = tokens.intern("A");
    let count = tokens.intern("count");
    let one = tokens.intern("one");

    let spec = SpecPath::from_variant_selection_sites(
        foo_a_number,
        &vec![
            VariantSelectionSite {
                host_path: foo,
                set: which,
                variant: a,
            },
            VariantSelectionSite {
                host_path: foo_a_number,
                set: count,
                variant: one,
            },
        ],
        &paths,
    );

    assert_eq!(spec.display(&tokens), "/Foo{which=A}A/Number{count=one}");
}

#[test]
fn from_variant_selection_sites_supports_repeated_set_names_on_same_host() {
    let mut tokens = TokenInterner::default();
    let mut paths = PathInterner::default();
    let host = paths
        .intern(Path::parse_absolute("/DirectlyNestedVariants", &mut tokens).expect("path"));
    let concrete = paths.intern(
        Path::parse_absolute(
            "/DirectlyNestedVariants/anim_spooky_anim_sphere",
            &mut tokens,
        )
        .expect("path"),
    );
    let standin = tokens.intern("standin");
    let shading = tokens.intern("shadingVariant");
    let anim = tokens.intern("anim");
    let spooky = tokens.intern("spooky");

    let spec = SpecPath::from_variant_selection_sites(
        concrete,
        &vec![
            VariantSelectionSite {
                host_path: host,
                set: standin,
                variant: anim,
            },
            VariantSelectionSite {
                host_path: host,
                set: shading,
                variant: spooky,
            },
            VariantSelectionSite {
                host_path: host,
                set: standin,
                variant: anim,
            },
        ],
        &paths,
    );

    assert_eq!(
        spec.display(&tokens),
        "/DirectlyNestedVariants{standin=anim}{shadingVariant=spooky}{standin=anim}anim_spooky_anim_sphere"
    );
}

#[test]
fn parse_round_trips_variant_property_path() {
    let mut tokens = TokenInterner::default();
    let mut paths = PathInterner::default();

    let spec = SpecPath::parse(
        "/A{nestedVariantSet=nestedVariant}.test",
        &mut tokens,
        &mut paths,
    )
    .expect("spec path");

    assert_eq!(
        spec.display(&tokens),
        "/A{nestedVariantSet=nestedVariant}.test"
    );
    let prim = paths.resolve(spec.prim_path());
    assert_eq!(prim.display(&tokens), "/A");
}

#[test]
fn from_property_path_preserves_plain_property_identity() {
    let mut tokens = TokenInterner::default();
    let mut paths = PathInterner::default();
    let robot = Path::parse_absolute("/Robot", &mut tokens).expect("prim path");
    let robot = paths.intern(robot);
    let property = PropertyPath::new(robot, tokens.intern("visibility"));

    let spec = SpecPath::from_property_path(property, &paths);

    assert_eq!(spec.display(&tokens), "/Robot.visibility");
    assert_eq!(spec.prim_path(), property.prim_path());
}

#[test]
fn malformed_paths_are_refused() {
    let mut tokens = TokenInterner::default();
    let mut paths = PathInterner::default();
    let mut parse = |s: &str| SpecPath::parse(s, &mut tokens, &mut paths).map(|_| ());
    assert_eq!(parse("A/B"), Err(SpecPathError::NotAbsolute));
    assert_eq!(parse(""), Err(SpecPathError::NotAbsolute));
    assert_eq!(parse("/A{set"), Err(SpecPathError::MalformedVariantSelection));
    assert_eq!(parse("/A{set=variant"), Err(SpecPathError::MalformedVariantSelection));
    assert_eq!(parse("/A."), Err(SpecPathError::EmptyPropertyName));
    for empty in ["/A//B", "//B", "/A/", "//", "/A/{v=red}B", "/A/.size", "/A{v=red}//B"] {
        assert_eq!(parse(empty), Err(SpecPathError::EmptySegment), "{empty}");
    }
    assert_eq!(parse("/A{v=red}/B"), Ok(()));
    assert_eq!(parse("/.size"), Ok(()));
    assert_eq!(parse("/"), Ok(()));
    assert_eq!(
        SpecPathError::from(PathError::EmptySegment),
        SpecPathError::InvalidPrimPath(PathError::EmptySegment)
    );
}

#[test]
fn components_and_properties_are_kept() {
    let mut tokens = TokenInterner::default();
    let mut paths = PathInterner::default();
    let spec = SpecPath::parse("/A{v=red}B/C.a.b", &mut tokens, &mut paths).expect("spec path");
    let id = |name: &str| tokens.lookup(name).expect("token");
    assert_eq!(
        spec.components(),
        &vec![
            SpecComponent::Prim(id("A")),
            SpecComponent::VariantSelection { set: id("v"), variant: id("red") },
            SpecComponent::Prim(id("B")),
            SpecComponent::Prim(id("C")),
        ]
    );
    assert_eq!(spec.property(), Some(id("a.b")));
    assert_eq!(paths.resolve(spec.prim_path()).display(&tokens), "/A/B/C");
    assert_eq!(spec.display(&tokens), "/A{v=red}B/C.a.b");
    let again = SpecPath::parse(&spec.display(&tokens), &mut tokens, &mut paths).expect("again");
    assert_eq!(again, spec);
    assert!(again.same(&spec));
}

#[test]
fn property_paths_name_their_prim() {
    let mut tokens = TokenInterner::default();
    let mut paths = PathInterner::default();
    let prim = paths.intern(Path::parse_absolute("/A/B", &mut tokens).expect("path"));
    let size = tokens.intern("size");
    let spec = SpecPath::from_property_path(PropertyPath::new(prim, size), &paths);
    assert_eq!(spec.display(&tokens), "/A/B.size");
    let root = paths.intern(Path::root());
    assert_eq!(SpecPath::from_prim_path(root, &paths).display(&tokens), "/");
}

#[test]
fn prim_paths_parse_and_compare() {
    let mut tokens = TokenInterner::default();
    let mut parse = |s: &str| Path::parse_absolute(s, &mut tokens);
    assert!(matches!(parse("A"), Err(PathError::NotAbsolute)));
    assert!(matches!(parse("/A//B"), Err(PathError::EmptySegment)));
    assert!(matches!(parse("/A/"), Err(PathError::EmptySegment)));
    let a = parse("/A").expect("path");
    let ab = parse("/A/B").expect("path");
    assert!(a.is_prefix_of(&ab) && !ab.is_prefix_of(&a));
    assert!(ab.parent().expect("parent").same(&a));
    assert_eq!(ab.strip_prefix(&a).map(|rest| rest.len()), Some(1));
    assert_eq!(
        a.compare_with_tokens(&ab, &tokens),
        layerstack::order::Order::Less
    );
}
