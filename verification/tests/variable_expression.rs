use layerstack::variable_expression::{
    is_expression, ExpressionValue, ExpressionVariables, VariableExpression, VariableValue,
};

/// An expected value.
enum Want {
    N,
    S(&'static str),
    I(i64),
    B(bool),
    Ss(&'static [&'static str]),
    Is(&'static [i64]),
    Bs(&'static [bool]),
    Empty,
}
use Want::{Bs, Empty, Is, Ss, B, I, N, S};

impl Want {
    fn value(&self) -> Option<ExpressionValue> {
        Some(match self {
            N => return None,
            S(s) => ExpressionValue::String((*s).into()),
            I(n) => ExpressionValue::Int(*n),
            B(b) => ExpressionValue::Bool(*b),
            Ss(l) => ExpressionValue::StringList(l.iter().map(|s| String::from(*s)).collect()),
            Is(l) => ExpressionValue::IntList(l.to_vec()),
            Bs(l) => ExpressionValue::BoolList(l.to_vec()),
            Empty => ExpressionValue::EmptyList,
        })
    }
}

/// The variables the table is evaluated with.
fn variables() -> ExpressionVariables {
    let mut vars = ExpressionVariables::new();
    let s = |s: &str| VariableValue::Value(ExpressionValue::String(s.into()));
    for (name, value) in [
        ("STR", s("abc")),
        ("EMPTY", s("")),
        ("SUB", s("`'sub_${STR}'`")),
        ("BADSUB", s("`'${'`")),
        ("LOOP", s("`${LOOP2}`")),
        ("LOOP2", s("`${LOOP}`")),
        ("NONEEXPR", s("`None`")),
        ("INTEXPR", s("`42`")),
        ("INT", VariableValue::Value(ExpressionValue::Int(7))),
        ("NEG", VariableValue::Value(ExpressionValue::Int(-3))),
        ("YES", VariableValue::Value(ExpressionValue::Bool(true))),
        ("NO", VariableValue::Value(ExpressionValue::Bool(false))),
        (
            "NAMES",
            VariableValue::Value(ExpressionValue::StringList(
                ["x", "y"].map(String::from).to_vec(),
            )),
        ),
        (
            "NUMS",
            VariableValue::Value(ExpressionValue::IntList([1, 2, 3].to_vec())),
        ),
        ("ASSET", VariableValue::Unsupported("SdfAssetPath".into())),
        ("FLOATV", VariableValue::Unsupported("double".into())),
    ] {
        vars.insert(name, value);
    }
    vars
}

/// Each expression evaluates to its value, its errors (verbatim) and the
/// variables it looks up (not compared where `defined` looks names up).
#[test]
fn evaluation_matches_openusd() {
    /// An expression, its value, its errors and its used variables.
    type Case = (
        &'static str,
        Want,
        &'static [&'static str],
        Option<&'static [&'static str]>,
    );
    let table: &[Case] = &[
    ("`\"./${STR}.usd\"`", S("./abc.usd"), &[], Some(&["STR"])),
    ("`'${STR}_sel'`", S("abc_sel"), &[], Some(&["STR"])),
    ("`\"${UNDEF}\"`", S("UNDEF"), &[], Some(&["UNDEF"])),
    ("`\"a${UNDEF}b\"`", S("aUNDEFb"), &[], Some(&["UNDEF"])),
    ("`${STR}`", S("abc"), &[], Some(&["STR"])),
    ("`${UNDEF}`", N, &["No value for variable 'UNDEF'"], Some(&["UNDEF"])),
    ("`${INT}`", I(7), &[], Some(&["INT"])),
    ("`\"x${INT}\"`", N, &["String value required for substituting variable 'INT', got int."], Some(&["INT"])),
    ("`${SUB}`", S("sub_abc"), &[], Some(&["STR", "SUB"])),
    ("`\"p_${SUB}\"`", S("p_sub_abc"), &[], Some(&["STR", "SUB"])),
    ("`${BADSUB}`", N, &["Variables must be a C identifier at character 4 (in variable 'BADSUB')"], Some(&["BADSUB"])),
    ("`${LOOP}`", N, &["Encountered circular variable substitutions: ['LOOP', 'LOOP2', 'LOOP']"], Some(&["LOOP", "LOOP2"])),
    ("`${ASSET}`", N, &["Variable 'ASSET' has unsupported type SdfAssetPath"], Some(&["ASSET"])),
    ("`\"${NONEEXPR}x\"`", S("x"), &[], Some(&["NONEEXPR"])),
    ("`${NONEEXPR}`", N, &[], Some(&["NONEEXPR"])),
    ("`${INTEXPR}`", I(42), &[], Some(&["INTEXPR"])),
    ("`\"\"`", S(""), &[], Some(&[])),
    ("`''`", S(""), &[], Some(&[])),
    ("`\"a\\\"b\"`", S("a\"b"), &[], Some(&[])),
    ("`'a\\'b'`", S("a'b"), &[], Some(&[])),
    ("`\"a\\`b\"`", S("a`b"), &[], Some(&[])),
    ("`\"a`b\"`", S("a`b"), &[], Some(&[])),
    ("`\"\\${STR}\"`", S("${STR}"), &[], Some(&[])),
    ("`\"a\\nb\"`", S("a\nb"), &[], Some(&[])),
    ("`\"a\\\\b\"`", S("a\\b"), &[], Some(&[])),
    ("`\"a\\qb\"`", S("aqb"), &[], Some(&[])),
    ("`\"tab\\tx\"`", S("tab\tx"), &[], Some(&[])),
    ("`\"\\x41\\102\"`", S("AB"), &[], Some(&[])),
    ("`42`", I(42), &[], Some(&[])),
    ("`-7`", I(-7), &[], Some(&[])),
    ("`007`", I(7), &[], Some(&[])),
    ("`99999999999999999999`", N, &["Integer 99999999999999999999 out of range. at character 1"], Some(&[])),
    ("`True`", B(true), &[], Some(&[])),
    ("`true`", B(true), &[], Some(&[])),
    ("`False`", B(false), &[], Some(&[])),
    ("`false`", B(false), &[], Some(&[])),
    ("`None`", N, &[], Some(&[])),
    ("`none`", N, &[], Some(&[])),
    ("`Truex`", N, &["Unexpected expression at character 1"], Some(&[])),
    ("`[]`", Empty, &[], Some(&[])),
    ("`[ ]`", Empty, &[], Some(&[])),
    ("`[\"a\", \"b\"]`", Ss(&["a", "b"]), &[], Some(&[])),
    ("`[\"a\" , \"b\"]`", Ss(&["a", "b"]), &[], Some(&[])),
    ("`[1, 2]`", Is(&[1, 2]), &[], Some(&[])),
    ("`[True, False]`", Bs(&[true, false]), &[], Some(&[])),
    ("`[1, \"a\"]`", N, &["Unexpected value of type string in list at element 1"], Some(&[])),
    ("`[None]`", N, &["Unexpected value of type None in list at element 0"], Some(&[])),
    ("`[[1]]`", N, &["Missing ending ']' at character 2"], Some(&[])),
    ("`[ 1]`", N, &["Missing ending ']' at character 3"], Some(&[])),
    ("`[1 ]`", N, &["Missing ending ']' at character 3"], Some(&[])),
    ("`[${STR}, \"d\"]`", Ss(&["abc", "d"]), &[], Some(&["STR"])),
    ("`if(${YES}, \"a\", \"b\")`", S("a"), &[], Some(&["YES"])),
    ("`if(${NO}, \"a\", \"b\")`", S("b"), &[], Some(&["NO"])),
    ("`if(${NO}, \"a\")`", N, &[], Some(&["NO"])),
    ("`if(${YES}, \"a\")`", S("a"), &[], Some(&["YES"])),
    ("`if(${INT}, \"a\", \"b\")`", N, &["if: Condition must be a boolean value"], Some(&["INT"])),
    ("`if(${YES}, \"a\", 1)`", N, &["if: if-value and else-value must evaluate to the same type or None."], Some(&["YES"])),
    ("`if(${YES}, \"a\", None)`", S("a"), &[], Some(&["YES"])),
    ("`if(${YES}, None, 1)`", N, &[], Some(&["YES"])),
    ("`if(${NO}, ${UNDEF}, \"b\")`", S("b"), &[], Some(&["NO", "UNDEF"])),
    ("`if(${YES}, ${UNDEF}, \"b\")`", N, &["No value for variable 'UNDEF'"], Some(&["UNDEF", "YES"])),
    ("`if(True, [1], [])`", N, &["if: if-value and else-value must evaluate to the same type or None."], Some(&[])),
    ("`if(True, [1], [2])`", Is(&[1]), &[], Some(&[])),
    ("`if ( True , \"a\" , \"b\" )`", S("a"), &[], Some(&[])),
    ("`if(True,\"a\",\"b\")`", S("a"), &[], Some(&[])),
    ("`if(True, \"a\", \"b\", \"c\")`", N, &["Function 'if' does not take 4 arguments."], Some(&[])),
    ("`if(True)`", N, &["Function 'if' does not take 1 arguments."], Some(&[])),
    ("`eq(1, 1)`", B(true), &[], Some(&[])),
    ("`eq(1, 2)`", B(false), &[], Some(&[])),
    ("`eq(\"a\", \"a\")`", B(true), &[], Some(&[])),
    ("`eq(\"a\", 1)`", N, &["eq: Cannot compare values of type string and int"], Some(&[])),
    ("`eq(None, None)`", B(true), &[], Some(&[])),
    ("`neq(None, None)`", B(false), &[], Some(&[])),
    ("`lt(None, None)`", N, &["lt: Comparison operation not supported for None"], Some(&[])),
    ("`eq([1], [1])`", N, &["eq: Unsupported type for comparison"], Some(&[])),
    ("`neq(1, 2)`", B(true), &[], Some(&[])),
    ("`lt(1, 2)`", B(true), &[], Some(&[])),
    ("`lt(\"b\", \"a\")`", B(false), &[], Some(&[])),
    ("`leq(2, 2)`", B(true), &[], Some(&[])),
    ("`gt(True, False)`", B(true), &[], Some(&[])),
    ("`geq(\"a\", \"b\")`", B(false), &[], Some(&[])),
    ("`and(True, True)`", B(true), &[], Some(&[])),
    ("`and(True, False)`", B(false), &[], Some(&[])),
    ("`and(False, ${UNDEF})`", B(false), &[], Some(&[])),
    ("`and(True, ${UNDEF})`", N, &["No value for variable 'UNDEF'"], Some(&["UNDEF"])),
    ("`and(True, 1)`", N, &["and: Invalid type int for argument 1"], Some(&[])),
    ("`and(True)`", N, &["Function 'and' requires at least 2 arguments."], Some(&[])),
    ("`or(False, False, True)`", B(true), &[], Some(&[])),
    ("`or(True, ${UNDEF})`", B(true), &[], Some(&[])),
    ("`or(False, 1, ${UNDEF})`", N, &["or: Invalid type int for argument 1", "No value for variable 'UNDEF'"], Some(&["UNDEF"])),
    ("`not(True)`", B(false), &[], Some(&[])),
    ("`not(1)`", N, &["not: Invalid type int for argument"], Some(&[])),
    ("`not(${UNDEF})`", N, &["No value for variable 'UNDEF'"], Some(&["UNDEF"])),
    ("`contains(\"abc\", \"b\")`", B(true), &[], Some(&[])),
    ("`contains(\"abc\", \"z\")`", B(false), &[], Some(&[])),
    ("`contains([\"a\", \"b\"], \"b\")`", B(true), &[], Some(&[])),
    ("`contains([1, 2], 3)`", B(false), &[], Some(&[])),
    ("`contains([1, 2], \"a\")`", N, &["contains: Invalid search value"], Some(&[])),
    ("`contains([], 1)`", B(false), &[], Some(&[])),
    ("`contains(1, 1)`", N, &["contains: Value to search must be a list or string"], Some(&[])),
    ("`contains(${NAMES}, \"y\")`", B(true), &[], Some(&["NAMES"])),
    ("`contains(${NUMS}, 2)`", B(true), &[], Some(&["NUMS"])),
    ("`contains(\"abc\", 1)`", N, &["contains: Invalid search value"], Some(&[])),
    ("`at(\"abc\", 0)`", S("a"), &[], Some(&[])),
    ("`at(\"abc\", -1)`", S("c"), &[], Some(&[])),
    ("`at(\"abc\", 3)`", N, &["at: Index out of range"], Some(&[])),
    ("`at([1, 2], 1)`", I(2), &[], Some(&[])),
    ("`at([], 0)`", N, &["at: Index out of range"], Some(&[])),
    ("`at(1, 0)`", N, &["at: Only supported for lists or strings"], Some(&[])),
    ("`at(\"abc\", \"0\")`", N, &["at: Index must be an integer"], Some(&[])),
    ("`at(${NAMES}, -2)`", S("x"), &[], Some(&["NAMES"])),
    ("`len(\"abc\")`", I(3), &[], Some(&[])),
    ("`len([1, 2, 3])`", I(3), &[], Some(&[])),
    ("`len([])`", I(0), &[], Some(&[])),
    ("`len(1)`", N, &["len: Unsupported type"], Some(&[])),
    ("`len(None)`", N, &["len: Unsupported type"], Some(&[])),
    ("`len(${NUMS})`", I(3), &[], Some(&["NUMS"])),
    ("`defined(\"STR\")`", B(true), &[], None),
    ("`defined(\"STR\", \"UNDEF\")`", B(false), &[], None),
    ("`defined(\"UNDEF\")`", B(false), &[], None),
    ("`defined(1)`", N, &["defined: Invalid type int for argument 0"], None),
    ("`defined()`", N, &["Function 'defined' requires at least 1 arguments."], None),
    ("`nosuch(1)`", N, &["Unknown function nosuch"], Some(&[])),
    ("`eq(1)`", N, &["Function 'eq' does not take 1 arguments."], Some(&[])),
    ("`eq(1, 2, 3)`", N, &["Function 'eq' does not take 3 arguments."], Some(&[])),
    ("`${`", N, &["Variables must be a C identifier at character 3"], Some(&[])),
    ("`${STR`", N, &["Missing ending '}' at character 6"], Some(&[])),
    ("`${1A}`", N, &["Variables must be a C identifier at character 3"], Some(&[])),
    ("`\"abc`", N, &["Missing ending '\"' at character 6"], Some(&[])),
    ("`'abc`", N, &["Missing ending \"'\" at character 6"], Some(&[])),
    ("`abc`", N, &["Unexpected expression at character 1"], Some(&[])),
    ("`\"a\" \"b\"`", N, &["Missing ending '`' at character 4"], Some(&[])),
    ("`\"a\"x`", N, &["Missing ending '`' at character 4"], Some(&[])),
    ("` \"a\"`", N, &["Unexpected expression at character 1"], Some(&[])),
    ("`\"a\" `", N, &["Missing ending '`' at character 4"], Some(&[])),
    ("`if(True, \"a\"`", N, &["Missing ending ')' at character 13"], Some(&[])),
    ("`[1, 2`", N, &["Missing ending ']' at character 6"], Some(&[])),
    ("`${FLOATV}`", N, &["Variable 'FLOATV' has unsupported type double"], Some(&["FLOATV"])),
    ("`\"${FLOATV}\"`", N, &["Variable 'FLOATV' has unsupported type double"], Some(&["FLOATV"])),
    ("`\"${INT}\"`", N, &["String value required for substituting variable 'INT', got int."], Some(&["INT"])),
    ("`${YES}`", B(true), &[], Some(&["YES"])),
    ("`${NAMES}`", Ss(&["x", "y"]), &[], Some(&["NAMES"])),
    ("`if(${UNDEF}, 1, 2)`", N, &["No value for variable 'UNDEF'"], Some(&["UNDEF"])),
    ("`eq(${UNDEF}, ${UNDEF2})`", N, &["No value for variable 'UNDEF'", "No value for variable 'UNDEF2'"], Some(&["UNDEF", "UNDEF2"])),
    ("`[${UNDEF}, ${UNDEF2}]`", N, &["No value for variable 'UNDEF'", "No value for variable 'UNDEF2'"], Some(&["UNDEF", "UNDEF2"])),
    ("`\"a\"` trailing", S("a"), &[], Some(&[])),
    ("`if(eq(${STR}, \"abc\"), \"yes\", \"no\")`", S("yes"), &[], Some(&["STR"])),
    ("`${NEG}`", I(-3), &[], Some(&["NEG"])),
    ("`at(${NUMS}, ${NEG})`", I(1), &[], Some(&["NEG", "NUMS"])),
    ("`if(True, nosuch(), 1)`", N, &["Unknown function nosuch"], Some(&[])),
    ("`if(nosuch(1), 1)`", N, &["Unknown function nosuch"], Some(&[])),
    ];
    let vars = variables();
    let mut failures = Vec::new();
    for (source, want, errors, used) in table {
        let result = VariableExpression::parse(source).evaluate(&vars);
        let mut looked_up: Vec<&str> = Vec::new();
        for i in 0..result.used_variables.len() {
            looked_up.push(result.used_variables.name_at(i));
        }
        let used_ok = used.is_none_or(|used| looked_up.iter().copied().eq(used.iter().copied()));
        if result.value != want.value() || result.errors != *errors || !used_ok {
            failures.push(format!("{source}: {result:?}"));
        }
    }
    assert!(failures.is_empty(), "{}", failures.join("\n"));
}

#[test]
fn parse_errors_are_kept() {
    let expression = VariableExpression::parse("`${`");
    assert!(!expression.is_valid());
    assert_eq!(
        expression.errors(),
        ["Variables must be a C identifier at character 3"]
    );
    assert!(VariableExpression::parse("`'a'`").is_valid());
    assert!(is_expression("`a`"));
    assert!(!is_expression("``"));
    assert!(!is_expression("a`"));
}

#[test]
fn strings_are_taken_as_asset_paths() {
    let vars = variables();
    let eval = |s: &str| VariableExpression::parse(s).evaluate(&vars).into_string();
    assert_eq!(eval("`\"${STR}.usd\"`"), Ok(Some("abc.usd".into())));
    assert_eq!(eval("`None`"), Ok(None));
    assert_eq!(
        eval("`${INT}`"),
        Err("Expression evaluated to 'int' but expected 'string'".into())
    );
    assert_eq!(
        eval("`eq(${UNDEF}, ${UNDEF2})`"),
        Err("No value for variable 'UNDEF'; No value for variable 'UNDEF2'".into())
    );
}

#[test]
fn matches_regex_is_not_evaluated() {
    let result = VariableExpression::parse("`matches_regex(\"abc\", \"a.c\")`")
        .evaluate(&ExpressionVariables::new());
    assert_eq!(result.value, None);
    assert_eq!(
        result.errors,
        ["matches_regex: regular expressions are not supported"]
    );
}

#[test]
fn variables_compose_stronger_first() {
    let s = |s: &str| VariableValue::Value(ExpressionValue::String(s.into()));
    let mut strong = ExpressionVariables::new();
    strong.insert("A", s("strong"));
    let mut weak = ExpressionVariables::new();
    weak.insert("A", s("weak"));
    weak.insert("B", s("weak"));
    strong.compose_over(&weak);
    assert_eq!(strong.get("A"), Some(&s("strong")));
    assert_eq!(strong.get("B"), Some(&s("weak")));
}

#[test]
fn escapes_decode_bytes() {
    let none = ExpressionVariables::new();
    let text = |s: &str| VariableExpression::parse(s).evaluate(&none).value;
    let string = |s: &str| Some(ExpressionValue::String(s.into()));
    assert_eq!(text("`'\\a\\b\\f\\r\\v'`"), string("\u{7}\u{8}\u{c}\r\u{b}"));
    assert_eq!(text("`'\\x4a\\x4Bz'`"), string("JKz"));
    assert_eq!(text("`'\\777'`"), string("\u{fffd}"));
    assert_eq!(text("`'end\\\\'`"), string("end\\"));
    assert_eq!(text("`'\u{e9}\u{4e2d}'`"), string("\u{e9}\u{4e2d}"));
    // Indices and lengths count bytes.
    assert_eq!(text("`len('\u{e9}')`"), Some(ExpressionValue::Int(2)));
    assert_eq!(text("`at('\u{e9}', 0)`"), string("\u{fffd}"));
}

#[test]
fn integers_keep_to_their_range() {
    let none = ExpressionVariables::new();
    let value = |s: &str| VariableExpression::parse(s).evaluate(&none).value;
    assert_eq!(value("`9223372036854775807`"), Some(ExpressionValue::Int(i64::MAX)));
    assert_eq!(value("`-9223372036854775808`"), Some(ExpressionValue::Int(i64::MIN)));
    assert_eq!(
        VariableExpression::parse("`9223372036854775808`").errors(),
        ["Integer 9223372036854775808 out of range. at character 1"]
    );
    assert_eq!(
        VariableExpression::parse("`-9223372036854775809`").errors(),
        ["Integer -9223372036854775809 out of range. at character 1"]
    );
}

#[test]
fn variables_are_listed_by_name() {
    let mut vars = ExpressionVariables::default();
    assert!(vars.is_empty());
    vars.insert("B", VariableValue::NoValue);
    vars.insert("A", VariableValue::Unsupported("double".into()));
    vars.insert("B", VariableValue::Value(ExpressionValue::Int(1)));
    assert_eq!(vars.len(), 2);
    assert!(!vars.is_empty());
    let listed = vars.iter();
    assert_eq!(listed[0], ("A", &VariableValue::Unsupported("double".into())));
    assert_eq!(listed[1], ("B", &VariableValue::Value(ExpressionValue::Int(1))));
    assert_eq!(vars.get("C"), None);
}

#[test]
fn values_name_their_types() {
    assert_eq!(ExpressionValue::EmptyList.type_label(), "list");
    assert_eq!(ExpressionValue::Bool(true).type_label(), "bool");
    assert_eq!(ExpressionValue::String("a".into()).as_str(), Some("a"));
    assert_eq!(ExpressionValue::Int(1).as_str(), None);
    assert!(!ExpressionValue::EmptyList.same_type(&ExpressionValue::IntList(vec![1])));
    assert_eq!(VariableExpression::parse("`1`").as_str(), "`1`");
}

#[test]
fn only_used_variables_matter() {
    let expression = VariableExpression::parse("`if(${YES}, \"${STR}\", defined(\"NOWHERE\"))`");
    let first = expression.evaluate(&variables());
    for name in ["YES", "STR", "NOWHERE"] {
        assert!(first.used_variables.contains(name), "{name}");
    }
    let mut fewer = ExpressionVariables::new();
    let all = variables();
    for (name, value) in all.iter() {
        if first.used_variables.contains(name) {
            fewer.insert(name, value.copy());
        }
    }
    fewer.insert("ELSEWHERE", VariableValue::NoValue);
    let again = expression.evaluate(&fewer);
    assert_eq!(again.value, first.value);
    assert_eq!(again.errors, first.errors);
    assert_eq!(again.used_variables.len(), first.used_variables.len());
}

#[test]
fn text_after_the_closing_backtick_is_ignored() {
    let vars = variables();
    for source in ["`'a'`", "`${STR}`", "`[1, 2]`", "`eq(1, 1)`", "`True`", "`-12`"] {
        let plain = VariableExpression::parse(source);
        assert!(plain.is_valid(), "{source}");
        for more in ["", "x", "`", " 'b'`", "{A}"] {
            let longer = VariableExpression::parse(&format!("{source}{more}"));
            assert!(longer.is_valid(), "{source}{more}");
            assert_eq!(
                longer.evaluate(&vars).value,
                plain.evaluate(&vars).value,
                "{source}{more}"
            );
        }
    }
}
