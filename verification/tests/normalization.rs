use term_index::normalize::normalize;

#[test]
fn lowercases_ascii() {
    assert_eq!(normalize("Compiler"), "compiler");
    assert_eq!(normalize("BANK"), "bank");
    assert_eq!(normalize("mIxEdCaSe"), "mixedcase");
}

#[test]
fn trims_outer_blanks() {
    assert_eq!(normalize("  word"), "word");
    assert_eq!(normalize("word   "), "word");
    assert_eq!(normalize("\t word \n"), "word");
}

#[test]
fn collapses_inner_blanks() {
    assert_eq!(normalize("virtual   machine"), "virtual machine");
    assert_eq!(normalize("a\tb\nc"), "a b c");
    assert_eq!(normalize("  Garbage   Collection  "), "garbage collection");
}

#[test]
fn keeps_other_characters() {
    assert_eq!(normalize("trace-based"), "trace-based");
    assert_eq!(normalize("just-in-time"), "just-in-time");
    assert_eq!(normalize("c99!"), "c99!");
}

#[test]
fn empty_and_blank_inputs() {
    assert_eq!(normalize(""), "");
    assert_eq!(normalize("   "), "");
    assert_eq!(normalize("\t\n\r "), "");
}

#[test]
fn leaves_non_ascii_untouched() {
    assert_eq!(normalize("Übersetzer"), "Übersetzer");
    assert_eq!(normalize("  naïve  Code "), "naïve code");
}

#[test]
fn idempotent_on_samples() {
    let samples = [
        "",
        "   ",
        "Compiler",
        "  Virtual   Machine  ",
        "tRaCe-BaSeD\t",
        "a  b   c",
        "already normal",
    ];
    for s in samples {
        let once = normalize(s);
        let twice = normalize(&once);
        assert_eq!(twice, once);
    }
}
