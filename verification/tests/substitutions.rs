use scriptbox::substitutions::find_programs;

fn programs(s: &str, body: bool) -> Vec<String> {
    find_programs(&s.chars().collect::<Vec<char>>(), body)
}

#[test]
fn programs_of_a_word() {
    assert_eq!(programs("a$(b)c$(d e)", false), ["b", "d e"]);
    assert_eq!(programs("$(a $(b))", false), ["a $(b)"]);
    assert_eq!(programs("$()", false), [""]);
    assert_eq!(programs("$(a", false).len(), 0);
    assert_eq!(programs("$( (a) )", false), [" (a) "]);
    assert_eq!(programs("", false).len(), 0);
    assert_eq!(programs("$", false).len(), 0);
    assert_eq!(programs("\\", false).len(), 0);
    assert_eq!(programs("'$(a)", false).len(), 0);
    assert_eq!(programs("$'$(a)", false).len(), 0);
}

#[test]
fn a_comment_closes_nothing() {
    let src = "$(echo hi # )\n bash x.sh)";
    assert_eq!(programs(src, false), ["echo hi # )\n bash x.sh"]);
    assert_eq!(programs("$(a) # )", true), ["a"]);
}

#[test]
fn arithmetic_is_looked_into() {
    assert_eq!(programs("$(((1+$(a))*2))", false), ["a"]);
    assert_eq!(programs("$((1+`a`))", false), ["(1+`a`)"]);
}

#[test]
fn quotes_hide_a_program_but_not_in_a_here_document() {
    assert_eq!(programs("'$(a)'$(b)", false), ["b"]);
    assert_eq!(programs("'$(a)'$(b)", true), ["a", "b"]);
    assert_eq!(programs("\"'$(a)'\"'$(b)'", false), ["a"]);
    assert_eq!(programs("$'\\'$(a)'$(b)", false), ["b"]);
    assert_eq!(programs("\"$'$(a)\"", false), ["a"]);
    assert_eq!(programs("\\$(a)", true).len(), 0);
}

#[test]
fn backquotes_lose_their_escapes() {
    assert_eq!(programs("`a \\`b\\` \\\\ \\$x \\n`", false), ["a `b` \\ $x \\n"]);
    assert_eq!(programs("`a", false).len(), 0);
    assert_eq!(programs("x`a`y`b`", true), ["a", "b"]);
}
