//! Semantic roles, and the spelling→role map.
//!
//! An operator's generated trait method is named after its *role*, never its
//! spelling: C's `&` and BASIC's `AND` both bind `bit_and` and share one
//! implementation. A spelling absent from the map that carries no `-> role`
//! is an error, not a guess.

use vstd::prelude::*;
use crate::text::{ascii_uppercase, lower_char, lower_seq, str_eq, upper_char, upper_seq};

verus! {

/// Which operand positions a role leaves unevaluated, by default.
pub open spec fn default_lazy_spec(role: Seq<char>) -> Seq<Seq<char>> {
    if role == "and_then"@ || role == "or_else"@ || role == "coalesce"@ {
        seq!["rhs"@]
    } else if role == "ternary"@ {
        seq!["then"@, "else"@]
    } else if role == "assign"@ || role == "compound_assign"@ {
        seq!["lhs"@]
    } else {
        Seq::empty()
    }
}

/// Which operand positions a role leaves unevaluated (`assign` needs a place
/// on its left, not a value; `&&` may skip its right operand).
pub fn default_lazy(role: &str) -> (r: Vec<&'static str>)
    ensures
        r@.map_values(|s: &'static str| s@) == default_lazy_spec(role@),
{
    let mut v: Vec<&'static str> = Vec::new();
    if str_eq(role, "and_then") || str_eq(role, "or_else") || str_eq(role, "coalesce") {
        v.push("rhs");
    } else if str_eq(role, "ternary") {
        v.push("then");
        v.push("else");
    } else if str_eq(role, "assign") || str_eq(role, "compound_assign") {
        v.push("lhs");
    }
    assert(v@.map_values(|s: &'static str| s@) =~= default_lazy_spec(role@));
    v
}

/// The documented role vocabulary.
pub open spec fn known_roles() -> Seq<Seq<char>> {
    seq![
        "add"@, "sub"@, "mul"@, "div"@, "rem"@, "pow"@, "neg"@, "pos"@,
        "bit_and"@, "bit_or"@, "bit_xor"@, "bit_not"@, "shl"@, "shr"@, "shift"@,
        "and_then"@, "or_else"@, "not"@, "coalesce"@,
        "eq"@, "ne"@, "lt"@, "le"@, "gt"@, "ge"@, "compare"@, "equality"@, "relational"@,
        "assign"@, "compound_assign"@, "inc"@, "dec"@,
        "ternary"@, "range"@, "concat"@, "comma"@, "arrow"@,
    ]
}

fn known_role_list() -> (v: Vec<&'static str>)
    ensures
        v@.map_values(|s: &'static str| s@) == known_roles(),
{
    let v: Vec<&'static str> = vec![
        "add", "sub", "mul", "div", "rem", "pow", "neg", "pos",
        "bit_and", "bit_or", "bit_xor", "bit_not", "shl", "shr", "shift",
        "and_then", "or_else", "not", "coalesce",
        "eq", "ne", "lt", "le", "gt", "ge", "compare", "equality", "relational",
        "assign", "compound_assign", "inc", "dec",
        "ternary", "range", "concat", "comma", "arrow",
    ];
    assert(v@.map_values(|s: &'static str| s@) =~= known_roles());
    v
}

/// Whether `role` is in the documented vocabulary. A role outside it is
/// legal but generates a required trait method with no default.
pub fn is_known(role: &str) -> (b: bool)
    ensures
        b == known_roles().contains(role@),
{
    let roles = known_role_list();
    let mut i: usize = 0;
    while i < roles.len()
        invariant
            i <= roles@.len(),
            roles@.map_values(|s: &'static str| s@) == known_roles(),
            forall|j: int| 0 <= j < i ==> known_roles()[j] != role@,
        decreases roles@.len() - i,
    {
        if str_eq(roles[i], role) {
            assert(known_roles()[i as int] == role@);
            return true;
        }
        i = i + 1;
    }
    false
}

/// The built-in spelling→role map, keyed by spelling and position: `-` is
/// `sub` infix but `neg` prefix.
pub open spec fn role_for_spec(lit: Seq<char>, prefix: bool) -> Option<Seq<char>> {
    if prefix {
        if lit == "-"@ {
            Some("neg"@)
        } else if lit == "+"@ {
            Some("pos"@)
        } else if lit == "!"@ {
            Some("not"@)
        } else if lit == "~"@ {
            Some("bit_not"@)
        } else if lit == "++"@ {
            Some("inc"@)
        } else if lit == "--"@ {
            Some("dec"@)
        } else {
            None
        }
    } else if lit == "+"@ {
        Some("add"@)
    } else if lit == "-"@ {
        Some("sub"@)
    } else if lit == "*"@ {
        Some("mul"@)
    } else if lit == "/"@ {
        Some("div"@)
    } else if lit == "%"@ {
        Some("rem"@)
    } else if lit == "**"@ || lit == "^^"@ {
        Some("pow"@)
    } else if lit == "&"@ {
        Some("bit_and"@)
    } else if lit == "|"@ {
        Some("bit_or"@)
    } else if lit == "^"@ {
        Some("bit_xor"@)
    } else if lit == "<<"@ {
        Some("shl"@)
    } else if lit == ">>"@ {
        Some("shr"@)
    } else if lit == "&&"@ {
        Some("and_then"@)
    } else if lit == "||"@ {
        Some("or_else"@)
    } else if lit == "??"@ {
        Some("coalesce"@)
    } else if lit == "=="@ {
        Some("eq"@)
    } else if lit == "!="@ || lit == "<>"@ {
        Some("ne"@)
    } else if lit == "<"@ {
        Some("lt"@)
    } else if lit == "<="@ {
        Some("le"@)
    } else if lit == ">"@ {
        Some("gt"@)
    } else if lit == ">="@ {
        Some("ge"@)
    } else if lit == "="@ {
        Some("assign"@)
    } else if lit == "+="@ || lit == "-="@ || lit == "*="@ || lit == "/="@ || lit == "%="@
        || lit == "<<="@ || lit == ">>="@ || lit == "&="@ || lit == "^="@ || lit == "|="@ {
        Some("compound_assign"@)
    } else if lit == ".."@ || lit == "..="@ {
        Some("range"@)
    } else if lit == ","@ {
        Some("comma"@)
    } else if lit == "->"@ {
        Some("arrow"@)
    } else {
        None
    }
}

pub open spec fn opt_view(o: Option<&'static str>) -> Option<Seq<char>> {
    match o {
        Some(s) => Some(s@),
        None => None,
    }
}

/// The role a symbolic spelling has by default, if any.
pub fn role_for(literal: &str, prefix: bool) -> (r: Option<&'static str>)
    ensures
        opt_view(r) == role_for_spec(literal@, prefix),
{
    let l = literal;
    if prefix {
        if str_eq(l, "-") {
            Some("neg")
        } else if str_eq(l, "+") {
            Some("pos")
        } else if str_eq(l, "!") {
            Some("not")
        } else if str_eq(l, "~") {
            Some("bit_not")
        } else if str_eq(l, "++") {
            Some("inc")
        } else if str_eq(l, "--") {
            Some("dec")
        } else {
            None
        }
    } else if str_eq(l, "+") {
        Some("add")
    } else if str_eq(l, "-") {
        Some("sub")
    } else if str_eq(l, "*") {
        Some("mul")
    } else if str_eq(l, "/") {
        Some("div")
    } else if str_eq(l, "%") {
        Some("rem")
    } else if str_eq(l, "**") || str_eq(l, "^^") {
        Some("pow")
    } else if str_eq(l, "&") {
        Some("bit_and")
    } else if str_eq(l, "|") {
        Some("bit_or")
    } else if str_eq(l, "^") {
        Some("bit_xor")
    } else if str_eq(l, "<<") {
        Some("shl")
    } else if str_eq(l, ">>") {
        Some("shr")
    } else if str_eq(l, "&&") {
        Some("and_then")
    } else if str_eq(l, "||") {
        Some("or_else")
    } else if str_eq(l, "??") {
        Some("coalesce")
    } else if str_eq(l, "==") {
        Some("eq")
    } else if str_eq(l, "!=") || str_eq(l, "<>") {
        Some("ne")
    } else if str_eq(l, "<") {
        Some("lt")
    } else if str_eq(l, "<=") {
        Some("le")
    } else if str_eq(l, ">") {
        Some("gt")
    } else if str_eq(l, ">=") {
        Some("ge")
    } else if str_eq(l, "=") {
        Some("assign")
    } else if str_eq(l, "+=") || str_eq(l, "-=") || str_eq(l, "*=") || str_eq(l, "/=") || str_eq(
        l,
        "%=",
    ) || str_eq(l, "<<=") || str_eq(l, ">>=") || str_eq(l, "&=") || str_eq(l, "^=") || str_eq(
        l,
        "|=",
    ) {
        Some("compound_assign")
    } else if str_eq(l, "..") || str_eq(l, "..=") {
        Some("range")
    } else if str_eq(l, ",") {
        Some("comma")
    } else if str_eq(l, "->") {
        Some("arrow")
    } else {
        None
    }
}

/// The role of a word operator, by its upper-cased spelling.
pub open spec fn role_for_upper_word(upper: Seq<char>, prefix: bool) -> Option<Seq<char>> {
    if prefix {
        if upper == "NOT"@ {
            Some("not"@)
        } else {
            None
        }
    } else if upper == "AND"@ {
        Some("bit_and"@)
    } else if upper == "OR"@ {
        Some("bit_or"@)
    } else if upper == "XOR"@ {
        Some("bit_xor"@)
    } else if upper == "MOD"@ {
        Some("rem"@)
    } else if upper == "ANDALSO"@ {
        Some("and_then"@)
    } else if upper == "ORELSE"@ {
        Some("or_else"@)
    } else if upper == "DIV"@ {
        Some("div"@)
    } else {
        None
    }
}

/// Word operators get roles too, so BASIC's `AND` binds the same `bit_and`
/// that C's `&` does. Matched case-insensitively.
pub fn role_for_word(word: &str, prefix: bool) -> (r: Option<&'static str>)
    ensures
        opt_view(r) == role_for_upper_word(upper_seq(word@), prefix),
{
    let upper = ascii_uppercase(word);
    let u = upper.as_str();
    if prefix {
        if str_eq(u, "NOT") {
            Some("not")
        } else {
            None
        }
    } else if str_eq(u, "AND") {
        Some("bit_and")
    } else if str_eq(u, "OR") {
        Some("bit_or")
    } else if str_eq(u, "XOR") {
        Some("bit_xor")
    } else if str_eq(u, "MOD") {
        Some("rem")
    } else if str_eq(u, "ANDALSO") {
        Some("and_then")
    } else if str_eq(u, "ORELSE") {
        Some("or_else")
    } else if str_eq(u, "DIV") {
        Some("div")
    } else {
        None
    }
}

/// A word operator's role does not depend on how its spelling is cased:
/// `and` binds the role that `AND` does.
pub proof fn role_for_word_ignores_case(word: Seq<char>, prefix: bool)
    ensures
        role_for_upper_word(upper_seq(lower_seq(word)), prefix) == role_for_upper_word(
            upper_seq(word),
            prefix,
        ),
{
    assert forall|i: int| 0 <= i < word.len() implies #[trigger] upper_char(lower_char(word[i]))
        == upper_char(word[i]) by {
        let c = word[i];
        if 'A' <= c && c <= 'Z' {
            assert(((c as u32) + 32) as char as u32 == (c as u32) + 32);
        }
    }
    assert(upper_seq(lower_seq(word)) =~= upper_seq(word));
}

/// Every role the built-in maps give, by spelling or by word, and every role
/// with default lazy operands, is in the documented vocabulary.
pub proof fn builtin_roles_are_known(lit: Seq<char>, prefix: bool, role: Seq<char>)
    ensures
        role_for_spec(lit, prefix) matches Some(r) ==> known_roles().contains(r),
        role_for_upper_word(lit, prefix) matches Some(r) ==> known_roles().contains(r),
        default_lazy_spec(role).len() > 0 ==> known_roles().contains(role),
{
    assert(known_roles()[0] == "add"@);
    assert(known_roles()[1] == "sub"@);
    assert(known_roles()[2] == "mul"@);
    assert(known_roles()[3] == "div"@);
    assert(known_roles()[4] == "rem"@);
    assert(known_roles()[5] == "pow"@);
    assert(known_roles()[6] == "neg"@);
    assert(known_roles()[7] == "pos"@);
    assert(known_roles()[8] == "bit_and"@);
    assert(known_roles()[9] == "bit_or"@);
    assert(known_roles()[10] == "bit_xor"@);
    assert(known_roles()[11] == "bit_not"@);
    assert(known_roles()[12] == "shl"@);
    assert(known_roles()[13] == "shr"@);
    assert(known_roles()[14] == "shift"@);
    assert(known_roles()[15] == "and_then"@);
    assert(known_roles()[16] == "or_else"@);
    assert(known_roles()[17] == "not"@);
    assert(known_roles()[18] == "coalesce"@);
    assert(known_roles()[19] == "eq"@);
    assert(known_roles()[20] == "ne"@);
    assert(known_roles()[21] == "lt"@);
    assert(known_roles()[22] == "le"@);
    assert(known_roles()[23] == "gt"@);
    assert(known_roles()[24] == "ge"@);
    assert(known_roles()[25] == "compare"@);
    assert(known_roles()[26] == "equality"@);
    assert(known_roles()[27] == "relational"@);
    assert(known_roles()[28] == "assign"@);
    assert(known_roles()[29] == "compound_assign"@);
    assert(known_roles()[30] == "inc"@);
    assert(known_roles()[31] == "dec"@);
    assert(known_roles()[32] == "ternary"@);
    assert(known_roles()[33] == "range"@);
    assert(known_roles()[34] == "concat"@);
    assert(known_roles()[35] == "comma"@);
    assert(known_roles()[36] == "arrow"@);
}

} // verus!
