use turtle_build::compile::expand;
use turtle_build::hash::command_hash;

fn s(x: &str) -> String {
    x.to_string()
}

#[test]
fn expand_substitutes_bound_names() {
    let env = vec![(s("flags"), s("-O2")), (s("out"), s("a.o"))];
    assert_eq!(expand("cc $flags -o $out", &env), s("cc -O2 -o a.o"));
}

#[test]
fn expand_unbound_name_becomes_empty() {
    let env = vec![];
    assert_eq!(expand("cc $flags x", &env), s("cc  x"));
}

#[test]
fn expand_later_binding_shadows_earlier() {
    let env = vec![(s("v"), s("one")), (s("v"), s("two"))];
    assert_eq!(expand("$v", &env), s("two"));
}

#[test]
fn expand_name_includes_digits_and_underscore() {
    let env = vec![(s("x_1"), s("ok"))];
    assert_eq!(expand("$x_1.", &env), s("ok."));
}

#[test]
fn expand_without_references_is_identity() {
    let env = vec![(s("v"), s("one"))];
    assert_eq!(expand("plain text", &env), s("plain text"));
}

#[test]
fn command_hash_matches_fnv1a() {
    // reference fold of 64-bit FNV-1a over the characters
    let mut h: u64 = 0xcbf2_9ce4_8422_2325;
    for c in "cc -c a.c".chars() {
        h = (h ^ (c as u64)).wrapping_mul(0x0000_0100_0000_01b3);
    }
    assert_eq!(command_hash("cc -c a.c"), h);
    assert_eq!(command_hash(""), 0xcbf2_9ce4_8422_2325);
}

#[test]
fn command_hash_distinguishes_commands() {
    assert_ne!(command_hash("cc -O2"), command_hash("cc -O0"));
}
