use staticizer::driver::{compiler_args, compiler_args_with};

fn strings(args: &[&str]) -> Vec<String> {
    args.iter().map(|s| s.to_string()).collect()
}

#[test]
fn compiler_path_is_dropped() {
    let args = compiler_args_with(strings(&["staticizer", "/usr/bin/rustc", "--edition=2021"]), true);
    assert_eq!(args, strings(&["staticizer", "--edition=2021", "-Zshare-generics=no"]));
}

#[test]
fn other_arguments_stay() {
    let args = compiler_args_with(strings(&["staticizer", "main.rs"]), false);
    assert_eq!(args, strings(&["staticizer", "main.rs", "-Zshare-generics=no"]));
    let args = compiler_args_with(strings(&["staticizer"]), true);
    assert_eq!(args, strings(&["staticizer", "-Zshare-generics=no"]));
}

#[test]
fn compiler_is_recognised_by_its_file_stem() {
    let args = compiler_args(strings(&["staticizer", "/home/u/.rustup/toolchains/nightly/bin/rustc", "-vV"]));
    assert_eq!(args, strings(&["staticizer", "-vV", "-Zshare-generics=no"]));
    let args = compiler_args(strings(&["staticizer", "rustc.exe", "-vV"]));
    assert_eq!(args, strings(&["staticizer", "-vV", "-Zshare-generics=no"]));
    let args = compiler_args(strings(&["staticizer", "src/lib.rs"]));
    assert_eq!(args, strings(&["staticizer", "src/lib.rs", "-Zshare-generics=no"]));
    let args = compiler_args(strings(&["staticizer"]));
    assert_eq!(args, strings(&["staticizer", "-Zshare-generics=no"]));
}
