//! Command lines of the Rust fuzzing engines (honggfuzz, AFL, libFuzzer):
//! the flags derived from a fuzzer configuration and the shell commands that
//! run a target and append its output to a log.
use vstd::prelude::*;

use crate::text::{all_ascii_digits, concat_str, decimal_value, digit_value, parse_u64_spec};

verus! {

/// The ASCII digit of `d` (below 10).
pub open spec fn digit_char(d: nat) -> char {
    (d + 48) as char
}

/// Decimal digits of `n`, most significant first, without leading zeros.
pub open spec fn nat_decimal(n: nat) -> Seq<char>
    decreases n,
{
    if n < 10 {
        seq![digit_char(n)]
    } else {
        nat_decimal(n / 10).push(digit_char(n % 10))
    }
}

/// Decimal text of `i` as `Display` writes an integer: a `-` for negatives,
/// then the digits of the magnitude.
pub open spec fn int_decimal(i: int) -> Seq<char> {
    if i < 0 {
        seq!['-'] + nat_decimal((-i) as nat)
    } else {
        nat_decimal(i as nat)
    }
}

proof fn lemma_nat_decimal_digits(n: nat)
    ensures
        nat_decimal(n).len() > 0,
        all_ascii_digits(nat_decimal(n)),
        decimal_value(nat_decimal(n)) == n,
    decreases n,
{
    if n < 10 {
        let s = nat_decimal(n);
        assert(digit_value(digit_char(n)) == n);
        assert(s.drop_last() =~= Seq::<char>::empty());
        assert(decimal_value(s.drop_last()) == 0);
        assert(decimal_value(s) == decimal_value(s.drop_last()) * 10 + digit_value(s.last()));
    } else {
        lemma_nat_decimal_digits(n / 10);
        let p = nat_decimal(n / 10);
        let s = nat_decimal(n);
        assert(s.drop_last() =~= p);
        assert(digit_value(digit_char(n % 10)) == n % 10);
        assert(s.last() == digit_char(n % 10));
        assert(decimal_value(s) == decimal_value(s.drop_last()) * 10 + digit_value(s.last()));
        assert(n == (n / 10) * 10 + n % 10);
    }
}

/// Law: the decimal text of a number parses back to that number: reading
/// what `int_to_text` writes for a non-negative value with the `u64` parser
/// (`parse_u64_str`) gives the value back.
pub proof fn decimal_text_parses_back(v: int)
    requires
        0 <= v <= u64::MAX,
    ensures
        parse_u64_spec(int_decimal(v)) == Some(v as u64),
{
    lemma_nat_decimal_digits(v as nat);
    let s = nat_decimal(v as nat);
    assert(s[0] != '+');
}

fn digit_str(d: u64) -> (s: &'static str)
    requires
        d < 10,
    ensures
        s@ == seq![digit_char(d as nat)],
{
    proof {
        reveal_strlit("0");
        reveal_strlit("1");
        reveal_strlit("2");
        reveal_strlit("3");
        reveal_strlit("4");
        reveal_strlit("5");
        reveal_strlit("6");
        reveal_strlit("7");
        reveal_strlit("8");
        reveal_strlit("9");
    }
    let s = match d {
        0 => "0",
        1 => "1",
        2 => "2",
        3 => "3",
        4 => "4",
        5 => "5",
        6 => "6",
        7 => "7",
        8 => "8",
        _ => "9",
    };
    assert(s@ =~= seq![digit_char(d as nat)]);
    s
}

fn nat_to_text(n: u64) -> (s: String)
    ensures
        s@ == nat_decimal(n as nat),
    decreases n,
{
    if n < 10 {
        String::from_str(digit_str(n))
    } else {
        let mut s = nat_to_text(n / 10);
        s.append(digit_str(n % 10));
        s
    }
}

/// Decimal text of `v`, as `format!("{}", v)` writes it.
pub fn int_to_text(v: i64) -> (s: String)
    ensures
        s@ == int_decimal(v as int),
{
    if v < 0 {
        let magnitude: u64 = if v == i64::MIN {
            9223372036854775808u64
        } else {
            (-v) as u64
        };
        let digits = nat_to_text(magnitude);
        let s = concat_str("-", digits.as_str());
        proof {
            reveal_strlit("-");
        }
        s
    } else {
        nat_to_text(v as u64)
    }
}

/// `prefix` followed by the decimal text of `v`.
fn flag_with_number(prefix: &str, v: i64) -> (s: String)
    ensures
        s@ == prefix@ + int_decimal(v as int),
{
    let t = int_to_text(v);
    concat_str(prefix, t.as_str())
}

/// Flags handed to `rustc`: the sanitizer flag (`-Z sanitizer=<name>`, or
/// nothing), a space, then the caller's `RUSTFLAGS`.
pub fn sanitizer_flags(sanitizer: &Option<String>, rustflags: &str) -> (s: String)
    ensures
        s@ == (match sanitizer {
            Some(n) => "-Z sanitizer="@ + n@,
            None => Seq::<char>::empty(),
        }) + " "@ + rustflags@,
{
    let head = match sanitizer {
        Some(n) => concat_str("-Z sanitizer=", n.as_str()),
        None => String::new(),
    };
    let with_space = concat_str(head.as_str(), " ");
    concat_str(with_space.as_str(), rustflags)
}

/// Arguments of `honggfuzz`: the run time (`--run_time <t>`, or nothing),
/// `-t 60`, `--tmout_sigvtalrm`, the thread count (`--threads <n>`, or
/// nothing) and the caller's `HFUZZ_RUN_ARGS`, separated by single spaces.
pub fn hfuzz_run_args(timeout: Option<i32>, threads: Option<i32>, extra: &str) -> (s: String)
    ensures
        s@ == (match timeout {
            Some(t) => "--run_time "@ + int_decimal(t as int),
            None => Seq::<char>::empty(),
        }) + " -t 60 --tmout_sigvtalrm "@ + (match threads {
            Some(n) => "--threads "@ + int_decimal(n as int),
            None => Seq::<char>::empty(),
        }) + " "@ + extra@,
{
    let run_time = match timeout {
        Some(t) => flag_with_number("--run_time ", t as i64),
        None => String::new(),
    };
    let thread_flag = match threads {
        Some(n) => flag_with_number("--threads ", n as i64),
        None => String::new(),
    };
    let a = concat_str(run_time.as_str(), " -t 60 --tmout_sigvtalrm ");
    let b = concat_str(a.as_str(), thread_flag.as_str());
    let c = concat_str(b.as_str(), " ");
    concat_str(c.as_str(), extra)
}

/// `parts` concatenated.
pub open spec fn concat_all(parts: Seq<Seq<char>>) -> Seq<char>
    decreases parts.len(),
{
    if parts.len() == 0 {
        Seq::empty()
    } else {
        concat_all(parts.drop_last()) + parts.last()
    }
}

fn concat_many(parts: &Vec<&str>) -> (s: String)
    ensures
        s@ == concat_all(parts@.map_values(|p: &str| p@)),
{
    let mut s = String::new();
    let mut i: usize = 0;
    while i < parts.len()
        invariant
            i <= parts@.len(),
            s@ == concat_all(parts@.take(i as int).map_values(|p: &str| p@)),
        decreases parts@.len() - i,
    {
        assert(parts@.take(i as int + 1).map_values(|p: &str| p@).drop_last() =~= parts@.take(
            i as int,
        ).map_values(|p: &str| p@));
        s.append(parts[i]);
        i = i + 1;
    }
    assert(parts@.take(parts@.len() as int) =~= parts@);
    s
}

/// The shell command that runs `cargo hfuzz` on `target`, with the given
/// environment, appending everything it prints to `log_file`.
pub fn hfuzz_shell_command(
    rust_args: &str,
    hfuzz_args: &str,
    corpora_dir: &str,
    state_dir: &str,
    target: &str,
    log_file: &str,
) -> (s: String)
    ensures
        s@ == "export RUSTFLAGS=\""@ + rust_args@ + "\"; export HFUZZ_RUN_ARGS=\""@ + hfuzz_args@
            + "\"; export HFUZZ_INPUT=\""@ + corpora_dir@ + "\"; export ETH2FUZZ_BEACONSTATE=\""@
            + state_dir@ + "\"; cargo +nightly hfuzz run "@ + target@ + " 2>&1 | tee -a "@
            + log_file@,
{
    let parts: Vec<&str> = vec![
        "export RUSTFLAGS=\"",
        rust_args,
        "\"; export HFUZZ_RUN_ARGS=\"",
        hfuzz_args,
        "\"; export HFUZZ_INPUT=\"",
        corpora_dir,
        "\"; export ETH2FUZZ_BEACONSTATE=\"",
        state_dir,
        "\"; cargo +nightly hfuzz run ",
        target,
        " 2>&1 | tee -a ",
        log_file,
    ];
    let s = concat_many(&parts);
    assert(concat_all(parts@.map_values(|p: &str| p@)) =~= "export RUSTFLAGS=\""@ + rust_args@
        + "\"; export HFUZZ_RUN_ARGS=\""@ + hfuzz_args@ + "\"; export HFUZZ_INPUT=\""@
        + corpora_dir@ + "\"; export ETH2FUZZ_BEACONSTATE=\""@ + state_dir@
        + "\"; cargo +nightly hfuzz run "@ + target@ + " 2>&1 | tee -a "@ + log_file@) by {
        reveal_with_fuel(concat_all, 13);
    }
    s
}


/// The views of a list of strings.
pub open spec fn string_views(v: Seq<String>) -> Seq<Seq<char>> {
    v.map_values(|a: String| a@)
}

/// Arguments of `cargo fuzz run` after the target: the corpus directory, then
/// `--` and `-max_total_time=<t>` for a time limit, `-workers=<n>` and
/// `-jobs=<n>` for a thread count, and `-seed=<s>` for a seed.
pub open spec fn libfuzzer_args_spec(
    corpus_dir: Seq<char>,
    timeout: Option<i32>,
    thread: Option<i32>,
    seed: Option<u32>,
) -> Seq<Seq<char>> {
    seq![corpus_dir] + (match timeout {
        Some(t) => seq!["--"@, "-max_total_time="@ + int_decimal(t as int)],
        None => Seq::empty(),
    }) + (match thread {
        Some(n) => seq!["-workers="@ + int_decimal(n as int), "-jobs="@ + int_decimal(n as int)],
        None => Seq::empty(),
    }) + (match seed {
        Some(v) => seq!["-seed="@ + int_decimal(v as int)],
        None => Seq::empty(),
    })
}

/// The arguments of `libfuzzer_args_spec`.
pub fn libfuzzer_args(corpus_dir: &str, timeout: Option<i32>, thread: Option<i32>, seed: Option<u32>) -> (args: Vec<String>)
    ensures
        string_views(args@) == libfuzzer_args_spec(corpus_dir@, timeout, thread, seed),
        args@.len() == 1 + (if timeout is Some {
            2int
        } else {
            0
        }) + (if thread is Some {
            2int
        } else {
            0
        }) + (if seed is Some {
            1int
        } else {
            0
        }),
        args@[0]@ == corpus_dir@,
        timeout matches Some(t) ==> args@[1]@ == "--"@ && args@[2]@ == "-max_total_time="@
            + int_decimal(t as int),
        thread matches Some(n) ==> {
            let w = if timeout is Some {
                3int
            } else {
                1int
            };
            args@[w]@ == "-workers="@ + int_decimal(n as int) && args@[w + 1]@ == "-jobs="@
                + int_decimal(n as int)
        },
        seed matches Some(v) ==> args@[args@.len() - 1]@ == "-seed="@ + int_decimal(v as int),
{
    let mut args: Vec<String> = Vec::new();
    args.push(String::from_str(corpus_dir));
    let ghost a0 = string_views(args@);
    assert(a0 =~= seq![corpus_dir@]);
    match timeout {
        Some(t) => {
            args.push(String::from_str("--"));
            args.push(flag_with_number("-max_total_time=", t as i64));
        },
        None => {},
    }
    let ghost a1 = string_views(args@);
    assert(a1 =~= a0 + (match timeout {
        Some(t) => seq!["--"@, "-max_total_time="@ + int_decimal(t as int)],
        None => Seq::empty(),
    }));
    match thread {
        Some(n) => {
            args.push(flag_with_number("-workers=", n as i64));
            args.push(flag_with_number("-jobs=", n as i64));
        },
        None => {},
    }
    let ghost a2 = string_views(args@);
    assert(a2 =~= a1 + (match thread {
        Some(n) => seq!["-workers="@ + int_decimal(n as int), "-jobs="@ + int_decimal(n as int)],
        None => Seq::empty(),
    }));
    match seed {
        Some(v) => {
            args.push(flag_with_number("-seed=", v as i64));
        },
        None => {},
    }
    assert(string_views(args@) =~= a2 + (match seed {
        Some(v) => seq!["-seed="@ + int_decimal(v as int)],
        None => Seq::empty(),
    }));
    assert(args@.len() == string_views(args@).len());
    assert(forall|k: int| 0 <= k < args@.len() ==> #[trigger] args@[k]@ == string_views(args@)[k]);
    args
}

/// `parts` joined with single spaces.
pub open spec fn join_spaced(parts: Seq<Seq<char>>) -> Seq<char>
    decreases parts.len(),
{
    if parts.len() == 0 {
        Seq::empty()
    } else if parts.len() == 1 {
        parts[0]
    } else {
        join_spaced(parts.drop_last()) + " "@ + parts.last()
    }
}

/// The strings of `parts` joined with single spaces (`parts.join(" ")`).
pub fn join_with_spaces(parts: &Vec<String>) -> (s: String)
    ensures
        s@ == join_spaced(string_views(parts@)),
{
    let mut s = String::new();
    let mut i: usize = 0;
    while i < parts.len()
        invariant
            i <= parts@.len(),
            s@ == join_spaced(string_views(parts@.take(i as int))),
        decreases parts@.len() - i,
    {
        assert(string_views(parts@.take(i as int + 1)).drop_last() =~= string_views(
            parts@.take(i as int),
        ));
        if i > 0 {
            s.append(" ");
        }
        s.append(parts[i].as_str());
        proof {
            if i == 0 {
                assert(string_views(parts@.take(1)) =~= seq![parts@[0]@]);
            }
        }
        i = i + 1;
    }
    assert(parts@.take(parts@.len() as int) =~= parts@);
    s
}

/// The shell command that runs `cargo fuzz` on `target` with the given
/// arguments, appending everything it prints to `log_file`.
pub fn libfuzzer_shell_command(
    state_dir: &str,
    rust_args: &str,
    target: &str,
    args: &Vec<String>,
    log_file: &str,
) -> (s: String)
    ensures
        s@ == "export ETH2FUZZ_BEACONSTATE=\""@ + state_dir@ + "\"; export RUSTFLAGS=\""@
            + rust_args@ + "\"; cargo +nightly fuzz run "@ + target@ + " "@ + join_spaced(
            string_views(args@),
        ) + " 2>&1 | tee -a "@ + log_file@,
{
    let joined = join_with_spaces(args);
    let parts: Vec<&str> = vec![
        "export ETH2FUZZ_BEACONSTATE=\"",
        state_dir,
        "\"; export RUSTFLAGS=\"",
        rust_args,
        "\"; cargo +nightly fuzz run ",
        target,
        " ",
        joined.as_str(),
        " 2>&1 | tee -a ",
        log_file,
    ];
    let s = concat_many(&parts);
    assert(concat_all(parts@.map_values(|p: &str| p@)) =~= "export ETH2FUZZ_BEACONSTATE=\""@
        + state_dir@ + "\"; export RUSTFLAGS=\""@ + rust_args@ + "\"; cargo +nightly fuzz run "@
        + target@ + " "@ + joined@ + " 2>&1 | tee -a "@ + log_file@) by {
        reveal_with_fuel(concat_all, 11);
    }
    s
}

/// Arguments of `cargo` that start an AFL run: `+nightly afl fuzz`, then
/// `-V <t>` for a time limit and `-s <seed>` for a seed, each as one argument.
pub open spec fn afl_fuzz_args_spec(timeout: Option<i32>, seed: Option<u32>) -> Seq<Seq<char>> {
    seq!["+nightly"@, "afl"@, "fuzz"@] + (match timeout {
        Some(t) => seq!["-V "@ + int_decimal(t as int)],
        None => Seq::empty(),
    }) + (match seed {
        Some(v) => seq!["-s "@ + int_decimal(v as int)],
        None => Seq::empty(),
    })
}

/// Law: the AFL arguments are `+nightly afl fuzz`, then the time-limit flag
/// exactly when a time limit is given, then the seed flag exactly when a
/// seed is given, whatever the other option is.
pub proof fn afl_flags_are_independent(timeout: Option<i32>, seed: Option<u32>)
    ensures
        afl_fuzz_args_spec(timeout, seed).len() == 3 + (if timeout is Some {
            1int
        } else {
            0
        }) + (if seed is Some {
            1int
        } else {
            0
        }),
        afl_fuzz_args_spec(timeout, seed)[0] == "+nightly"@,
        afl_fuzz_args_spec(timeout, seed)[1] == "afl"@,
        afl_fuzz_args_spec(timeout, seed)[2] == "fuzz"@,
        timeout matches Some(t) ==> afl_fuzz_args_spec(timeout, seed)[3] == "-V "@ + int_decimal(
            t as int,
        ),
        seed matches Some(v) ==> afl_fuzz_args_spec(timeout, seed)[afl_fuzz_args_spec(
            timeout,
            seed,
        ).len() - 1] == "-s "@ + int_decimal(v as int),
{
}

/// The arguments of `afl_fuzz_args_spec`.
pub fn afl_fuzz_args(timeout: Option<i32>, seed: Option<u32>) -> (args: Vec<String>)
    ensures
        string_views(args@) == afl_fuzz_args_spec(timeout, seed),
        args@.len() == 3 + (if timeout is Some {
            1int
        } else {
            0
        }) + (if seed is Some {
            1int
        } else {
            0
        }),
        args@[0]@ == "+nightly"@ && args@[1]@ == "afl"@ && args@[2]@ == "fuzz"@,
        timeout matches Some(t) ==> args@[3]@ == "-V "@ + int_decimal(t as int),
        seed matches Some(v) ==> args@[args@.len() - 1]@ == "-s "@ + int_decimal(v as int),
{
    proof {
        afl_flags_are_independent(timeout, seed);
    }
    let mut args: Vec<String> = Vec::new();
    args.push(String::from_str("+nightly"));
    args.push(String::from_str("afl"));
    args.push(String::from_str("fuzz"));
    let ghost a0 = string_views(args@);
    assert(a0 =~= seq!["+nightly"@, "afl"@, "fuzz"@]);
    match timeout {
        Some(t) => {
            args.push(flag_with_number("-V ", t as i64));
        },
        None => {},
    }
    let ghost a1 = string_views(args@);
    assert(a1 =~= a0 + (match timeout {
        Some(t) => seq!["-V "@ + int_decimal(t as int)],
        None => Seq::empty(),
    }));
    match seed {
        Some(v) => {
            args.push(flag_with_number("-s ", v as i64));
        },
        None => {},
    }
    assert(string_views(args@) =~= a1 + (match seed {
        Some(v) => seq!["-s "@ + int_decimal(v as int)],
        None => Seq::empty(),
    }));
    args
}

/// The corpus override to use: the one given, unless it is absent or empty.
pub fn usable_override(corpus_override: Option<String>) -> (r: Option<String>)
    ensures
        r == (match corpus_override {
            Some(p) => if p@.len() > 0 {
                Some(p)
            } else {
                None
            },
            None => None,
        }),
{
    match corpus_override {
        Some(p) => if p.as_str().is_empty() {
            None
        } else {
            Some(p)
        },
        None => None,
    }
}

} // verus!
