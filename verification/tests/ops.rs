use nailhammer::runtime::ops::{build, Assoc, Fixity, OpInfo, OpTree, Part};

fn info(rule: &str) -> Option<OpInfo> {
    let mk = |precedence, fixity, assoc| Some(OpInfo { precedence, fixity, assoc });
    match rule {
        "add" | "sub" => mk(1, Fixity::Infix, Assoc::Left),
        "mul" => mk(2, Fixity::Infix, Assoc::Left),
        "pow" => mk(3, Fixity::Infix, Assoc::Right),
        "neg" => mk(4, Fixity::Prefix, Assoc::Right),
        "fact" => mk(5, Fixity::Postfix, Assoc::Left),
        _ => None,
    }
}

fn rule_of(c: char) -> &'static str {
    match c {
        '+' => "add",
        '-' => "sub",
        '*' => "mul",
        '^' => "pow",
        '~' => "neg",
        '!' => "fact",
        _ => "name",
    }
}

/// The parts of `src`, one per non-blank character, each bound as `table`
/// says for its rule.
fn parts_with(src: &str, table: fn(&str) -> Option<OpInfo>) -> Vec<Part<String>> {
    src.chars()
        .filter(|c| *c != ' ')
        .map(|c| {
            let rule = rule_of(c);
            Part { item: c.to_string(), text: c.to_string(), info: table(rule), prefix: table(rule) }
        })
        .collect()
}

fn render(t: &OpTree<String>) -> String {
    match t {
        OpTree::Atom(p) => p.trim().to_string(),
        OpTree::Prefix { op, operand } => format!("({}{})", op, render(operand)),
        OpTree::Postfix { op, operand } => format!("({}{})", render(operand), op),
        OpTree::Infix { op, lhs, rhs } => format!("({} {} {})", render(lhs), op, render(rhs)),
    }
}

fn shape(src: &str) -> String {
    let tree = build(parts_with(src, info)).unwrap_or_else(|e| panic!("{src}: {}", e.to_string()));
    render(&tree)
}

#[test]
fn tighter_operators_bind_first() {
    assert_eq!(shape("a + b * c"), "(a + (b * c))");
    assert_eq!(shape("a * b + c"), "((a * b) + c)");
    assert_eq!(shape("a + b + c * d"), "((a + b) + (c * d))");
}

#[test]
fn left_associative_operators_group_leftward() {
    assert_eq!(shape("a - b - c"), "((a - b) - c)");
    assert_eq!(shape("a + b - c + d"), "(((a + b) - c) + d)");
}

#[test]
fn right_associative_operators_group_rightward() {
    assert_eq!(shape("a ^ b ^ c"), "(a ^ (b ^ c))");
    assert_eq!(shape("a * b ^ c ^ d"), "(a * (b ^ (c ^ d)))");
}

#[test]
fn prefix_operators_bind_their_operand_at_their_own_level() {
    assert_eq!(shape("~a * b"), "((~a) * b)");
    assert_eq!(shape("~a ^ b"), "((~a) ^ b)");
    assert_eq!(shape("~~a"), "(~(~a))");
}

#[test]
fn a_loose_prefix_operator_absorbs_tighter_infix() {
    fn loose(rule: &str) -> Option<OpInfo> {
        match rule {
            "neg" => Some(OpInfo { precedence: 1, fixity: Fixity::Prefix, assoc: Assoc::Right }),
            "add" => Some(OpInfo { precedence: 2, fixity: Fixity::Infix, assoc: Assoc::Left }),
            _ => None,
        }
    }
    let tree = build(parts_with("~a + b", loose)).unwrap();
    assert_eq!(render(&tree), "(~(a + b))");
}

#[test]
fn postfix_operators_apply_to_the_atom() {
    assert_eq!(shape("a! + b"), "((a!) + b)");
    assert_eq!(shape("a!!"), "((a!)!)");
}

#[test]
fn a_single_atom_needs_no_operators() {
    assert_eq!(shape("a"), "a");
}

fn fold_raw(src: &str) -> Result<String, String> {
    build(parts_with(src, info)).map(|t| render(&t)).map_err(|e| e.to_string())
}

#[test]
fn a_trailing_operator_is_an_error_not_a_panic() {
    let mut parts = parts_with("a + b", info);
    parts.pop();
    let err = match build(parts) {
        Ok(_) => panic!("a dangling operator must fail"),
        Err(e) => e,
    };
    assert_eq!(err.to_string(), "expected an operand");
}

#[test]
fn a_well_formed_stream_still_folds() {
    assert_eq!(fold_raw("a + b").unwrap(), "(a + b)");
}

#[test]
fn an_operator_in_operand_position_names_itself_trimmed() {
    let mut parts = parts_with("a + * b", info);
    parts[2].text = "\u{a0}* ".to_string();
    assert_eq!(fold_raw("a + * b").unwrap_err(), "unexpected operator `*`");
    let err = build(parts).err().unwrap();
    assert_eq!(err.to_string(), "unexpected operator `*`");
}
