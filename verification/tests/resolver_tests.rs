use shader_sandbox::shader::ResolveError;
use shader_sandbox::shader::Resolver;
use shader_sandbox::shader::Source;
use shader_sandbox::shader::line_target;

/// The seven bytes of the directive keyword, written out so no source line
/// here is itself a directive.
const KEYWORD: [u8; 7] = [105, 110, 99, 108, 117, 100, 101];

/// A well-formed directive line: `#` + keyword + space + quoted target.
fn directive_line(target: &str) -> Vec<u8> {
    let mut v: Vec<u8> = vec![35];
    v.extend_from_slice(&KEYWORD);
    v.push(32);
    v.push(34);
    v.extend_from_slice(target.as_bytes());
    v.push(34);
    v
}

fn bytes(s: &str) -> Vec<u8> {
    s.as_bytes().to_vec()
}

fn register(r: &mut Resolver, name: &str, content: Vec<u8>) {
    r.push(Source::new(bytes(name), content));
}

fn resolve_ok(r: &Resolver, name: &str) -> String {
    match r.resolve(&bytes(name)) {
        Ok(t) => String::from_utf8(t).unwrap(),
        Err(_) => panic!("expected successful resolution"),
    }
}

#[test]
fn plain_source_is_returned_verbatim() {
    let mut r = Resolver::new();
    register(&mut r, "simple.frag", bytes("void main(){}\nfloat y;\n"));
    assert_eq!(resolve_ok(&r, "simple.frag"), "void main(){}\nfloat y;\n");
}

#[test]
fn missing_final_newline_is_added() {
    let mut r = Resolver::new();
    register(&mut r, "a", bytes("one\ntwo"));
    assert_eq!(resolve_ok(&r, "a"), "one\ntwo\n");
}

#[test]
fn crlf_line_endings_are_normalized() {
    let mut r = Resolver::new();
    register(&mut r, "a", bytes("one\r\ntwo\r\n"));
    assert_eq!(resolve_ok(&r, "a"), "one\ntwo\n");
}

#[test]
fn empty_source_resolves_to_empty() {
    let mut r = Resolver::new();
    register(&mut r, "a", Vec::new());
    assert_eq!(resolve_ok(&r, "a"), "");
}

#[test]
fn expansion_is_recursive_and_order_preserving() {
    // A is line 1, a directive for B, line 3; B is a line and a directive
    // for C; C is one line. B's expansion is spliced at A's directive,
    // with C inlined at B's directive, each splice followed by a newline.
    let mut a = bytes("line 1\n");
    a.extend_from_slice(&directive_line("b"));
    a.extend_from_slice(b"\nline 3\n");
    let mut b = bytes("b first\n");
    b.extend_from_slice(&directive_line("c"));
    b.push(10);
    let mut r = Resolver::new();
    register(&mut r, "a", a);
    register(&mut r, "b", b);
    register(&mut r, "c", bytes("c only\n"));
    assert_eq!(resolve_ok(&r, "a"), "line 1\nb first\nc only\n\n\nline 3\n");
}

#[test]
fn end_to_end_base_and_common() {
    let mut base = directive_line("common.frag");
    base.extend_from_slice(b"\nvoid main(){}");
    let mut r = Resolver::new();
    register(&mut r, "base.frag", base);
    register(&mut r, "common.frag", bytes("float x = 1.0;"));
    assert_eq!(resolve_ok(&r, "base.frag"), "float x = 1.0;\n\nvoid main(){}\n");
}

#[test]
fn cyclic_sources_fail_with_cycle() {
    let mut r = Resolver::new();
    register(&mut r, "a", directive_line("b"));
    register(&mut r, "b", directive_line("a"));
    match r.resolve(&bytes("a")) {
        Err(ResolveError::Cycle(n)) => assert_eq!(n, bytes("a")),
        _ => panic!("expected a cycle error"),
    }
}

#[test]
fn self_reference_fails_with_cycle() {
    let mut r = Resolver::new();
    register(&mut r, "a", directive_line("a"));
    match r.resolve(&bytes("a")) {
        Err(ResolveError::Cycle(n)) => assert_eq!(n, bytes("a")),
        _ => panic!("expected a cycle error"),
    }
}

#[test]
fn unregistered_name_is_not_found() {
    let r = Resolver::new();
    match r.resolve(&bytes("ghost.frag")) {
        Err(ResolveError::NotFound) => {},
        _ => panic!("expected a not-found error"),
    }
}

#[test]
fn unregistered_target_is_missing_and_named() {
    let mut r = Resolver::new();
    register(&mut r, "a", directive_line("nope.frag"));
    match r.resolve(&bytes("a")) {
        Err(ResolveError::Missing(n)) => assert_eq!(n, bytes("nope.frag")),
        _ => panic!("expected a missing-target error"),
    }
}

#[test]
fn later_registration_wins() {
    let mut r = Resolver::new();
    register(&mut r, "a", bytes("old\n"));
    register(&mut r, "a", bytes("new\n"));
    assert_eq!(resolve_ok(&r, "a"), "new\n");
}

#[test]
fn directive_grammar_accepts_whitespace_variants() {
    // leading whitespace, space between # and keyword, trailing whitespace
    let mut line = bytes("  # ");
    line.extend_from_slice(&KEYWORD);
    line.extend_from_slice(b"  \"t.frag\"  ");
    assert_eq!(line_target(&line), Some(bytes("t.frag")));
}

#[test]
fn directive_grammar_rejects_malformed_lines() {
    // extra text after the closing quote makes an ordinary line
    let mut trailing = directive_line("t");
    trailing.extend_from_slice(b" extra");
    assert_eq!(line_target(&trailing), None);

    // no quotes at all
    let mut unquoted = bytes("#");
    unquoted.extend_from_slice(&KEYWORD);
    unquoted.extend_from_slice(b" t.frag");
    assert_eq!(line_target(&unquoted), None);

    // empty target
    let mut empty = bytes("#");
    empty.extend_from_slice(&KEYWORD);
    empty.extend_from_slice(b" \"\"");
    assert_eq!(line_target(&empty), None);

    // no whitespace after the keyword
    let mut glued = bytes("#");
    glued.extend_from_slice(&KEYWORD);
    glued.extend_from_slice(b"\"t\"");
    assert_eq!(line_target(&glued), None);

    // an ordinary line of code
    assert_eq!(line_target(&bytes("float x = 1.0;")), None);
}

#[test]
fn malformed_directive_is_copied_as_text() {
    let mut content = directive_line("t");
    content.extend_from_slice(b" extra\n");
    let expected = String::from_utf8(content.clone()).unwrap();
    let mut r = Resolver::new();
    register(&mut r, "a", content);
    // the malformed line is ordinary text, so the unregistered name "t" is
    // never looked up
    assert_eq!(resolve_ok(&r, "a"), expected);
}

#[test]
fn quoted_target_may_hold_inner_quotes() {
    // the closing quote is the last quote of the line
    let mut line = bytes("#");
    line.extend_from_slice(&KEYWORD);
    line.extend_from_slice(b" \"a\" \"b\"");
    assert_eq!(line_target(&line), Some(bytes("a\" \"b")));
}
