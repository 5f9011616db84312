use eth2fuzz::commands::{
    afl_fuzz_args, hfuzz_run_args, hfuzz_shell_command, int_to_text, join_with_spaces,
    libfuzzer_args, libfuzzer_shell_command, sanitizer_flags, usable_override,
};

fn strings(v: &[&str]) -> Vec<String> {
    v.iter().map(|s| s.to_string()).collect()
}

#[test]
fn int_to_text_matches_display() {
    for v in [0i64, 7, 10, 99, 100, 1234, -1, -5, -10, -120, i64::MAX, i64::MIN, i32::MIN as i64] {
        assert_eq!(int_to_text(v), format!("{}", v));
    }
    assert_eq!(int_to_text(i64::MIN), "-9223372036854775808");
}

#[test]
fn sanitizer_flags_examples() {
    assert_eq!(sanitizer_flags(&Some("address".to_string()), "-C x"), "-Z sanitizer=address -C x");
    assert_eq!(sanitizer_flags(&None, ""), " ");
}

#[test]
fn hfuzz_args_examples() {
    assert_eq!(hfuzz_run_args(Some(60), Some(2), ""), "--run_time 60 -t 60 --tmout_sigvtalrm --threads 2 ");
    assert_eq!(hfuzz_run_args(None, None, "-v"), " -t 60 --tmout_sigvtalrm  -v");
    let expected = format!("{} {} {} {} {}", "--run_time -3", "-t 60", "--tmout_sigvtalrm", "", "x");
    assert_eq!(hfuzz_run_args(Some(-3), None, "x"), expected);
}

#[test]
fn hfuzz_command_example() {
    let cmd = hfuzz_shell_command("R", "H", "/c", "/s", "lighthouse_attestation", "/l.log");
    assert_eq!(
        cmd,
        "export RUSTFLAGS=\"R\"; export HFUZZ_RUN_ARGS=\"H\"; export HFUZZ_INPUT=\"/c\"; export ETH2FUZZ_BEACONSTATE=\"/s\"; cargo +nightly hfuzz run lighthouse_attestation 2>&1 | tee -a /l.log"
    );
}

#[test]
fn libfuzzer_args_examples() {
    assert_eq!(
        libfuzzer_args("c", Some(10), Some(4), Some(7)),
        strings(&["c", "--", "-max_total_time=10", "-workers=4", "-jobs=4", "-seed=7"])
    );
    assert_eq!(libfuzzer_args("/x", None, None, None), strings(&["/x"]));
    assert_eq!(libfuzzer_args("/x", None, Some(1), None), strings(&["/x", "-workers=1", "-jobs=1"]));
}

#[test]
fn libfuzzer_command_example() {
    let args = strings(&["c", "--", "-max_total_time=10"]);
    assert_eq!(
        libfuzzer_shell_command("/s", "R", "t", &args, "/l"),
        "export ETH2FUZZ_BEACONSTATE=\"/s\"; export RUSTFLAGS=\"R\"; cargo +nightly fuzz run t c -- -max_total_time=10 2>&1 | tee -a /l"
    );
}

#[test]
fn afl_args_examples() {
    assert_eq!(afl_fuzz_args(Some(5), None), strings(&["+nightly", "afl", "fuzz", "-V 5"]));
    assert_eq!(afl_fuzz_args(None, Some(42)), strings(&["+nightly", "afl", "fuzz", "-s 42"]));
    assert_eq!(afl_fuzz_args(None, None), strings(&["+nightly", "afl", "fuzz"]));
}

#[test]
fn join_and_override() {
    assert_eq!(join_with_spaces(&strings(&[])), "");
    assert_eq!(join_with_spaces(&strings(&["a"])), "a");
    assert_eq!(join_with_spaces(&strings(&["a", "", "b"])), "a  b");
    assert_eq!(usable_override(None), None);
    assert_eq!(usable_override(Some(String::new())), None);
    assert_eq!(usable_override(Some("/b".to_string())), Some("/b".to_string()));
}
