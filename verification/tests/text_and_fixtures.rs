use gungraun_runner::branching::{branch_a, branch_b};
use gungraun_runner::decimal::{push_decimal, zero_padded_decimal};
use gungraun_runner::fixture_files::{cull_suffix, expected_stacks_file, stacks_text};
use gungraun_runner::id::{compare_text, Id, Rank, SourcePath};
use gungraun_runner::recursive::recursive;

#[test]
fn decimal_rendering() {
    let mut s = String::from("x=");
    push_decimal(&mut s, 0);
    assert_eq!(s, "x=0");
    let mut s = String::new();
    push_decimal(&mut s, u64::MAX);
    assert_eq!(s, "18446744073709551615");
    assert_eq!(zero_padded_decimal(7, 4), "0007");
    assert_eq!(zero_padded_decimal(12345, 4), "12345");
}

#[test]
fn fixture_file_names() {
    assert_eq!(cull_suffix(100), "_cull0100");
    assert_eq!(cull_suffix(1000), "_cull1000");
    assert_eq!(expected_stacks_file("branching", "_cull0100"), "callgrind.branching_cull0100.exp_stacks");
    assert_eq!(expected_stacks_file("no_entry_point", ""), "callgrind.no_entry_point.exp_stacks");
}

#[test]
fn stacks_file_contents() {
    let stacks = vec!["main 1".to_string(), "main;a 2".to_string()];
    assert_eq!(stacks_text(&stacks), "main 1\nmain;a 2\n");
    assert_eq!(stacks_text(&vec![]), "");
}

#[test]
fn text_comparison() {
    assert_eq!(compare_text("abc", "abd"), Rank::Less);
    assert_eq!(compare_text("ab", "abc"), Rank::Less);
    assert_eq!(compare_text("b", "abc"), Rank::Greater);
    assert_eq!(compare_text("é", "z"), Rank::Greater);
    assert_eq!(compare_text("same", "same"), Rank::Equal);
}

#[test]
fn identifier_order() {
    let plain = Id { file: None, func: "z".to_string(), obj: None };
    let with_file = Id { file: Some(SourcePath::Unknown), func: "a".to_string(), obj: None };
    let rust_file = Id { file: Some(SourcePath::Rust("a.rs".to_string())), func: "a".to_string(), obj: None };
    assert_eq!(plain.compare(&with_file), Rank::Less);
    assert_eq!(with_file.compare(&rust_file), Rank::Less);
    assert_eq!(rust_file.compare(&with_file), Rank::Greater);
    assert!(rust_file.same(&rust_file.duplicate()));
    let mut label = String::new();
    rust_file.push_label(&mut label);
    assert_eq!(label, "a.rs:a");
}

#[test]
fn branching_fixture_sums() {
    assert_eq!(branch_a("3"), (3 * 1000 + 499_500, 3));
    assert_eq!(branch_b("3"), (3 * 500 + 124_750, 3));
    assert_eq!(branch_a("-7"), (-7 * 1000 + 499_500, -7));
    assert_eq!(branch_b("+0"), (124_750, 0));
    // The sum wraps around in 32 bits.
    let expected = (2_000_000_000i64 * 1000 + 499_500) as i32;
    assert_eq!(branch_a("2000000000"), (expected, 2_000_000_000));
}

#[test]
fn recursive_fixture_sums() {
    assert_eq!(recursive(3, "7"), (4 * 19_900, 7));
    assert_eq!(recursive(0, "-1"), (19_900, -1));
    assert_eq!(recursive(-5, "2"), (19_900, 2));
    assert_eq!(gungraun_runner::recursive::parse_arg("42"), 42);
    assert_eq!(gungraun_runner::branching::parse_arg("-2147483648"), i32::MIN);
}

fn in_file(path: &str) -> Id {
    Id { file: Some(SourcePath::Relative(path.to_string())), func: "f".to_string(), obj: None }
}

#[test]
fn paths_are_ordered_by_components() {
    // "a" is a prefix of "a.rs", so the path a/b.rs comes first.
    assert_eq!(in_file("a/b.rs").compare(&in_file("a.rs")), Rank::Less);
    assert_eq!(in_file("a.rs").compare(&in_file("a/b.rs")), Rank::Greater);
    // Repeated and trailing separators and inner `.` do not make another path.
    assert!(in_file("a//b").same(&in_file("a/b")));
    assert!(in_file("a/./b/").same(&in_file("a/b")));
    assert!(!in_file("./a").same(&in_file("a")));
    assert!(!in_file("a/../b").same(&in_file("b")));
    // The root comes before any name.
    let rooted = Id { file: Some(SourcePath::Relative("/z".to_string())), func: "f".to_string(), obj: None };
    assert_eq!(rooted.compare(&in_file("a")), Rank::Less);
    let mut label = String::new();
    in_file("a//b/./c/").push_label(&mut label);
    assert_eq!(label, "a//b/./c/:f");
    let mut label = String::new();
    in_file("/").push_label(&mut label);
    assert_eq!(label, "/:f");
}
