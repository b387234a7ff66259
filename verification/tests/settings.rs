use ce_pin::{caps, load_roots};

#[test]
fn roots_are_read_line_by_line() {
    let a = "aa".repeat(32);
    let b = "Bb".repeat(32);
    let text = format!("# org keys\n\n  {a}  # ours\r\n{b}\nshort\n{a}{b}\n#{a}\n\t{a}");
    assert_eq!(load_roots(Some(&text)), [[0xaa; 32], [0xbb; 32], [0xaa; 32]]);
    assert!(load_roots(Some("")).is_empty());
    assert!(load_roots(Some("\n\n#\n")).is_empty());
    assert!(load_roots(None).is_empty());
}

#[test]
fn the_nearest_chain_is_presented() {
    let some = |s: &str| Some(s.to_string());
    assert_eq!(caps::resolve(some("arg"), some("env"), some("file")), "arg");
    assert_eq!(caps::resolve(None, some("env"), some("file")), "env");
    assert_eq!(caps::resolve(None, None, some(" file\n")), "file");
    assert_eq!(caps::resolve(None, None, None), "");
}
