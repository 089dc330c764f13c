use nailhammer::syntax::lex::{lex, TokKind};
use nailhammer::syntax::parse_source;
use nailhammer::syntax::source::{FileId, SourceMap};

fn toks(src: &str) -> Vec<(TokKind, String, u32, u32)> {
    let chars: Vec<char> = src.chars().collect();
    lex(&chars, FileId(0))
        .unwrap_or_else(|d| panic!("{}", d.message))
        .into_iter()
        .map(|t| (t.kind, t.text, t.lo, t.hi))
        .collect()
}

#[test]
fn case_insensitive_is_one_word_and_comments_vanish() {
    let t = toks("keywords case-insensitive; // note\nrule x");
    let words: Vec<&str> = t.iter().map(|t| t.1.as_str()).collect();
    assert_eq!(words, ["keywords", "case-insensitive", ";", "rule", "x"]);
    assert_eq!(t[1].0, TokKind::Ident);
    assert_eq!((t[1].2, t[1].3), (9, 25));
}

#[test]
fn a_word_merely_starting_like_the_flag_is_not_it() {
    let chars: Vec<char> = "case-insensitively".chars().collect();
    let d = lex(&chars, FileId(0)).err().unwrap();
    assert_eq!(d.message, "unexpected character");
    let s = d.span.unwrap();
    assert_eq!((s.lo, s.hi), (4, 5));
}

#[test]
fn strings_unescape_and_byte_offsets_count_utf8() {
    let t = toks("\"é\\n\\u{41}\" ->");
    assert_eq!(t[0].0, TokKind::Str);
    assert_eq!(t[0].1, "é\nA");
    assert_eq!((t[0].2, t[0].3), (0, 12));
    assert_eq!(t[1].1, "->");
}

#[test]
fn an_unterminated_string_is_an_error() {
    let chars: Vec<char> = "x \"abc".chars().collect();
    let d = lex(&chars, FileId(3)).err().unwrap();
    assert_eq!(d.message, "unterminated string literal");
    let s = d.span.unwrap();
    assert_eq!((s.file, s.lo, s.hi), (FileId(3), 2, 6));
}

#[test]
fn an_open_unicode_escape_is_an_error() {
    let chars: Vec<char> = "\"\\u{41\"".chars().collect();
    let d = lex(&chars, FileId(0)).err().unwrap();
    assert_eq!(d.message, "unterminated `\\u{..}` escape");
}

#[test]
fn a_stray_character_is_an_error() {
    let chars: Vec<char> = "rule x = $;".chars().collect();
    let d = lex(&chars, FileId(0)).err().unwrap();
    assert_eq!(d.message, "unexpected character");
    let s = d.span.unwrap();
    assert_eq!((s.lo, s.hi), (9, 10));
}

#[test]
fn blank_text_parses_to_an_empty_grammar() {
    let mut sm = SourceMap::new();
    let ast = parse_source(&mut sm, "a.nh", "  // nothing here\n\n").unwrap();
    assert!(ast.grammar_name.is_none() && ast.rules.is_empty() && ast.tokens.is_empty());
    let e = parse_source(&mut sm, "b.nh", "grammar A; rule r = \"x").err().unwrap();
    assert_eq!(e.0[0].message, "unterminated string literal");
}
