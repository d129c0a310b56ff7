//! Command-line flag parsing for the `a3s-apofasi` tool.
//!
//! The tool itself (file and terminal I/O, timing) lives with the host; the
//! flags it accepts, their defaults and the messages for bad flags are
//! decided here.

use vstd::prelude::*;

use crate::infer::device::DeviceRequest;
use crate::text::{append_str, chars_of, str_eq, string_of};

verus! {

// ---------------------------------------------------------------------------
// Unsigned integers
// ---------------------------------------------------------------------------

/// Whether `c` is an ASCII digit.
pub open spec fn is_digit(c: char) -> bool {
    '0' <= c && c <= '9'
}

/// Value of a run of decimal digits.
pub open spec fn digits_value(s: Seq<char>) -> int
    decreases s.len(),
{
    if s.len() == 0 {
        0
    } else {
        digits_value(s.drop_last()) * 10 + (s.last() as int - '0' as int)
    }
}

/// A number's text without its optional leading `+`.
pub open spec fn unsigned_digits(s: Seq<char>) -> Seq<char> {
    if s.len() > 0 && s[0] == '+' {
        s.drop_first()
    } else {
        s
    }
}

/// What `str::parse::<usize>` accepts: an optional `+`, then one or more
/// ASCII digits whose value fits in a `usize`.
pub open spec fn parsed_usize(s: Seq<char>) -> Option<int> {
    let d = unsigned_digits(s);
    if d.len() > 0 && (forall|i: int| 0 <= i < d.len() ==> #[trigger] is_digit(d[i]))
        && digits_value(d) <= usize::MAX {
        Some(digits_value(d))
    } else {
        None
    }
}

proof fn lemma_digits_nonneg(s: Seq<char>)
    requires
        forall|i: int| 0 <= i < s.len() ==> #[trigger] is_digit(s[i]),
    ensures
        digits_value(s) >= 0,
    decreases s.len(),
{
    if s.len() > 0 {
        assert forall|i: int| 0 <= i < s.drop_last().len() implies #[trigger] is_digit(
            s.drop_last()[i],
        ) by {
            assert(s.drop_last()[i] == s[i]);
        }
        lemma_digits_nonneg(s.drop_last());
        assert(is_digit(s[s.len() - 1]));
    }
}

proof fn lemma_digits_prefix_le(s: Seq<char>, k: int)
    requires
        0 <= k <= s.len(),
        forall|i: int| 0 <= i < s.len() ==> #[trigger] is_digit(s[i]),
    ensures
        digits_value(s.take(k)) <= digits_value(s),
    decreases s.len() - k,
{
    if k < s.len() {
        lemma_digits_prefix_le(s, k + 1);
        assert(s.take(k + 1).drop_last() =~= s.take(k));
        assert forall|i: int| 0 <= i < s.take(k).len() implies #[trigger] is_digit(s.take(k)[i]) by {
            assert(s.take(k)[i] == s[i]);
        }
        lemma_digits_nonneg(s.take(k));
        assert(s.take(k + 1).last() == s[k]);
        assert(is_digit(s[k]));
    } else {
        assert(s.take(k) =~= s);
    }
}

/// `str::parse::<usize>`: see [`parsed_usize`].
pub fn parse_usize(raw: &str) -> (r: Option<usize>)
    ensures
        match parsed_usize(raw@) {
            Some(v) => r matches Some(n) && n == v,
            None => r is None,
        },
{
    let cs = chars_of(raw);
    let start: usize = if cs.len() > 0 && cs[0] == '+' {
        1
    } else {
        0
    };
    let ghost d = unsigned_digits(raw@);
    proof {
        assert(d =~= cs@.skip(start as int));
    }
    if start >= cs.len() {
        return None;
    }
    let mut value: usize = 0;
    let mut i: usize = start;
    while i < cs.len()
        invariant
            start <= i <= cs@.len(),
            start < cs@.len(),
            cs@ == raw@,
            d == unsigned_digits(raw@),
            d == cs@.skip(start as int),
            forall|k: int| 0 <= k < i - start ==> #[trigger] is_digit(d[k]),
            value as int == digits_value(d.take(i - start)),
        decreases cs@.len() - i,
    {
        let c = cs[i];
        proof {
            assert(d.take(i - start + 1).drop_last() =~= d.take(i - start));
            assert(d[i - start] == c);
        }
        if !('0' <= c && c <= '9') {
            proof {
                assert(!is_digit(d[i - start]));
            }
            return None;
        }
        let dv = (c as u32 - '0' as u32) as usize;
        if value > (usize::MAX - dv) / 10 {
            proof {
                assert(value * 10 + dv > usize::MAX) by (nonlinear_arith)
                    requires
                        value > (usize::MAX - dv) / 10,
                        dv <= 9,
                ;
                let n = (i - start + 1) as int;
                assert forall|k: int| 0 <= k < n implies #[trigger] is_digit(d.take(n)[k]) by {
                    assert(d.take(n)[k] == d[k]);
                }
                assert(d.take(n).last() == c);
                assert(digits_value(d.take(n)) == value * 10 + dv);
                if forall|k: int| 0 <= k < d.len() ==> #[trigger] is_digit(d[k]) {
                    lemma_digits_prefix_le(d, n);
                }
            }
            return None;
        }
        value = value * 10 + dv;
        i = i + 1;
    }
    proof {
        assert(d.take(d.len() as int) =~= d);
    }
    Some(value)
}

// ---------------------------------------------------------------------------
// Flags
// ---------------------------------------------------------------------------

/// The device a `--device` value names.
pub open spec fn device_named(s: Seq<char>) -> Option<DeviceRequest> {
    if s == "auto"@ {
        Some(DeviceRequest::Auto)
    } else if s == "metal"@ {
        Some(DeviceRequest::Metal)
    } else if s == "cuda"@ {
        Some(DeviceRequest::Cuda)
    } else if s == "cpu"@ {
        Some(DeviceRequest::Cpu)
    } else {
        None
    }
}

/// Parse a `--device` value.
pub fn parse_device(raw: &str) -> (r: Option<DeviceRequest>)
    ensures
        r == device_named(raw@),
{
    if str_eq(raw, "auto") {
        Some(DeviceRequest::Auto)
    } else if str_eq(raw, "metal") {
        Some(DeviceRequest::Metal)
    } else if str_eq(raw, "cuda") {
        Some(DeviceRequest::Cuda)
    } else if str_eq(raw, "cpu") {
        Some(DeviceRequest::Cpu)
    } else {
        None
    }
}

fn joined(a: &str, b: &str) -> (r: String)
    ensures
        r@ == a@ + b@,
{
    let mut text: Vec<char> = Vec::new();
    append_str(&mut text, a);
    append_str(&mut text, b);
    string_of(text.as_slice())
}

/// Parse a positive count for `flag`.
pub fn parse_count(raw: &str, flag: &str) -> (r: Result<usize, String>)
    ensures
        match parsed_usize(raw@) {
            Some(v) => if v > 0 {
                r == Ok::<usize, String>(v as usize)
            } else {
                r matches Err(m) && m@ == flag@ + " must be a positive integer"@
            },
            None => r matches Err(m) && m@ == flag@ + " must be a positive integer"@,
        },
{
    match parse_usize(raw) {
        Some(n) => {
            if n == 0 {
                Err(joined(flag, " must be a positive integer"))
            } else {
                Ok(n)
            }
        },
        None => Err(joined(flag, " must be a positive integer")),
    }
}

/// Options shared by `smoke` and `bench`.
#[derive(Debug, Clone)]
pub struct CommonOpts {
    /// Checkpoint directory.
    pub checkpoint: Option<String>,
    /// Device preference.
    pub device: DeviceRequest,
    /// Use the lexical engine.
    pub lexical: bool,
    /// Print JSON.
    pub json: bool,
    /// Timed iterations.
    pub iters: usize,
    /// Warmup iterations.
    pub warmup: usize,
    /// Bench case name.
    pub case: String,
}

/// View of [`CommonOpts`]: checkpoint, device, lexical, json, iters, warmup, case.
pub type CommonView = (Option<Seq<char>>, DeviceRequest, bool, bool, int, int, Seq<char>);

/// The view of options.
pub open spec fn common_view(o: CommonOpts) -> CommonView {
    (
        match o.checkpoint {
            Some(c) => Some(c@),
            None => None,
        },
        o.device,
        o.lexical,
        o.json,
        o.iters as int,
        o.warmup as int,
        o.case@,
    )
}

/// Flags from position `i` on applied to `o`, or the message of the first bad flag.
pub open spec fn common_from(a: Seq<Seq<char>>, i: int, o: CommonView) -> core::result::Result<
    CommonView,
    Seq<char>,
>
    decreases a.len() - i,
{
    if i < 0 || i >= a.len() {
        Ok(o)
    } else {
        let f = a[i];
        if f == "--lexical"@ {
            common_from(a, i + 1, (o.0, o.1, true, o.3, o.4, o.5, o.6))
        } else if f == "--json"@ {
            common_from(a, i + 1, (o.0, o.1, o.2, true, o.4, o.5, o.6))
        } else if f == "--case"@ {
            if i + 1 < a.len() {
                common_from(a, i + 2, (o.0, o.1, o.2, o.3, o.4, o.5, a[i + 1]))
            } else {
                Err("--case needs a value"@)
            }
        } else if f == "--checkpoint"@ {
            if i + 1 < a.len() {
                common_from(a, i + 2, (Some(a[i + 1]), o.1, o.2, o.3, o.4, o.5, o.6))
            } else {
                Err("--checkpoint needs a path"@)
            }
        } else if f == "--device"@ {
            if i + 1 < a.len() {
                match device_named(a[i + 1]) {
                    Some(d) => common_from(a, i + 2, (o.0, d, o.2, o.3, o.4, o.5, o.6)),
                    None => Err("unknown device "@ + a[i + 1]),
                }
            } else {
                Err("--device needs a value"@)
            }
        } else if f == "--iters"@ {
            if i + 1 < a.len() {
                match parsed_usize(a[i + 1]) {
                    Some(n) => common_from(a, i + 2, (o.0, o.1, o.2, o.3, n, o.5, o.6)),
                    None => Err("--iters must be an integer"@),
                }
            } else {
                Err("--iters needs a value"@)
            }
        } else if f == "--warmup"@ {
            if i + 1 < a.len() {
                match parsed_usize(a[i + 1]) {
                    Some(n) => common_from(a, i + 2, (o.0, o.1, o.2, o.3, o.4, n, o.6)),
                    None => Err("--warmup must be an integer"@),
                }
            } else {
                Err("--warmup needs a value"@)
            }
        } else {
            Err("unknown flag "@ + f)
        }
    }
}

/// Views of arguments.
pub open spec fn arg_views(args: Seq<String>) -> Seq<Seq<char>> {
    args.map_values(|a: String| a@)
}

/// Defaults of the shared options, given the checkpoint the environment names.
pub open spec fn common_defaults(checkpoint_env: Option<String>) -> CommonView {
    (
        match checkpoint_env {
            Some(c) => Some(c@),
            None => None,
        },
        DeviceRequest::Auto,
        false,
        false,
        20,
        3,
        "smoke"@,
    )
}

/// Parse the flags shared by `smoke` and `bench`. `checkpoint_env` is the
/// checkpoint directory the environment names, if any (the default).
#[verifier::rlimit(30)]
pub fn parse_common(args: &[String], checkpoint_env: Option<String>) -> (r: Result<
    CommonOpts,
    String,
>)
    ensures
        match common_from(arg_views(args@), 0, common_defaults(checkpoint_env)) {
            Ok(v) => r matches Ok(o) && common_view(o) == v,
            Err(m) => r matches Err(e) && e@ == m,
        },
{
    let ghost a = arg_views(args@);
    let mut opts = CommonOpts {
        checkpoint: checkpoint_env,
        device: DeviceRequest::Auto,
        lexical: false,
        json: false,
        iters: 20,
        warmup: 3,
        case: String::from_str("smoke"),
    };
    let mut i: usize = 0;
    while i < args.len()
        invariant
            i <= args@.len(),
            a == arg_views(args@),
            common_from(a, 0, common_defaults(checkpoint_env)) == common_from(
                a,
                i as int,
                common_view(opts),
            ),
        decreases args@.len() - i,
    {
        let f = args[i].as_str();
        let ghost o = common_view(opts);
        proof {
            assert(a[i as int] == f@);
        }
        if str_eq(f, "--lexical") {
            opts.lexical = true;
        } else if str_eq(f, "--json") {
            opts.json = true;
        } else if str_eq(f, "--case") {
            i = i + 1;
            if i >= args.len() {
                return Err(String::from_str("--case needs a value"));
            }
            opts.case = args[i].clone();
        } else if str_eq(f, "--checkpoint") {
            i = i + 1;
            if i >= args.len() {
                return Err(String::from_str("--checkpoint needs a path"));
            }
            opts.checkpoint = Some(args[i].clone());
        } else if str_eq(f, "--device") {
            i = i + 1;
            if i >= args.len() {
                return Err(String::from_str("--device needs a value"));
            }
            match parse_device(args[i].as_str()) {
                Some(d) => {
                    opts.device = d;
                },
                None => {
                    return Err(joined("unknown device ", args[i].as_str()));
                },
            }
        } else if str_eq(f, "--iters") {
            i = i + 1;
            if i >= args.len() {
                return Err(String::from_str("--iters needs a value"));
            }
            match parse_usize(args[i].as_str()) {
                Some(n) => {
                    opts.iters = n;
                },
                None => {
                    return Err(String::from_str("--iters must be an integer"));
                },
            }
        } else if str_eq(f, "--warmup") {
            i = i + 1;
            if i >= args.len() {
                return Err(String::from_str("--warmup needs a value"));
            }
            match parse_usize(args[i].as_str()) {
                Some(n) => {
                    opts.warmup = n;
                },
                None => {
                    return Err(String::from_str("--warmup must be an integer"));
                },
            }
        } else {
            return Err(joined("unknown flag ", f));
        }
        i = i + 1;
    }
    Ok(opts)
}

// ---------------------------------------------------------------------------
// Suite flags
// ---------------------------------------------------------------------------

/// View of an optional text.
pub open spec fn text_view(o: Option<String>) -> Option<Seq<char>> {
    match o {
        Some(c) => Some(c@),
        None => None,
    }
}

/// Options of the `suite` command.
#[derive(Debug, Clone)]
pub struct SuiteOpts {
    /// Cases file.
    pub cases: String,
    /// Checkpoint bundle directory.
    pub checkpoint: String,
    /// Device preference.
    pub device: DeviceRequest,
    /// Warmup calls per case (at least one).
    pub warmup: usize,
    /// Timed calls per case (at least one).
    pub iters: usize,
}

/// Suite flags while parsing: cases, checkpoint, device, warmup, iters.
pub type SuiteView = (Option<Seq<char>>, Option<Seq<char>>, DeviceRequest, int, int);

/// A positive count for `flag`, or its message.
pub open spec fn count_of(raw: Seq<char>, flag: Seq<char>) -> core::result::Result<int, Seq<char>> {
    match parsed_usize(raw) {
        Some(v) => if v > 0 {
            Ok(v)
        } else {
            Err(flag + " must be a positive integer"@)
        },
        None => Err(flag + " must be a positive integer"@),
    }
}

/// Suite flags from position `i` on applied to `o`, or the first bad flag's message.
pub open spec fn suite_from(a: Seq<Seq<char>>, i: int, o: SuiteView) -> core::result::Result<
    SuiteView,
    Seq<char>,
>
    decreases a.len() - i,
{
    if i < 0 || i >= a.len() {
        Ok(o)
    } else {
        let f = a[i];
        if f == "--cases"@ {
            if i + 1 < a.len() {
                suite_from(a, i + 2, (Some(a[i + 1]), o.1, o.2, o.3, o.4))
            } else {
                Err("--cases needs a path"@)
            }
        } else if f == "--checkpoint"@ {
            if i + 1 < a.len() {
                suite_from(a, i + 2, (o.0, Some(a[i + 1]), o.2, o.3, o.4))
            } else {
                Err("--checkpoint needs a path"@)
            }
        } else if f == "--device"@ {
            if i + 1 < a.len() {
                match device_named(a[i + 1]) {
                    Some(d) => suite_from(a, i + 2, (o.0, o.1, d, o.3, o.4)),
                    None => Err("unknown device "@ + a[i + 1]),
                }
            } else {
                Err("--device needs a value"@)
            }
        } else if f == "--warmup"@ {
            if i + 1 < a.len() {
                match count_of(a[i + 1], "--warmup"@) {
                    Ok(n) => suite_from(a, i + 2, (o.0, o.1, o.2, n, o.4)),
                    Err(m) => Err(m),
                }
            } else {
                Err("--warmup needs a value"@)
            }
        } else if f == "--iters"@ {
            if i + 1 < a.len() {
                match count_of(a[i + 1], "--iters"@) {
                    Ok(n) => suite_from(a, i + 2, (o.0, o.1, o.2, o.3, n)),
                    Err(m) => Err(m),
                }
            } else {
                Err("--iters needs a value"@)
            }
        } else {
            Err("unknown flag "@ + f)
        }
    }
}

/// What the `suite` flags give: the options, or the message for the first
/// bad flag, then for a missing cases file or checkpoint.
pub open spec fn suite_options(a: Seq<Seq<char>>, checkpoint_env: Option<Seq<char>>) -> core::result::Result<
    SuiteView,
    Seq<char>,
> {
    match suite_from(a, 0, (None, checkpoint_env, DeviceRequest::Auto, 1, 1)) {
        Err(m) => Err(m),
        Ok(o) => if o.0 is None {
            Err("suite requires --cases FILE"@)
        } else if o.1 is None {
            Err("suite requires APOFASI_CHECKPOINT or --checkpoint"@)
        } else {
            Ok(o)
        },
    }
}

/// Parse the `suite` flags. `checkpoint_env` is the checkpoint directory the
/// environment names, if any (the default).
#[verifier::rlimit(30)]
pub fn parse_suite(args: &[String], checkpoint_env: Option<String>) -> (r: Result<SuiteOpts, String>)
    ensures
        match suite_options(arg_views(args@), text_view(checkpoint_env)) {
            Ok(v) => r matches Ok(o) && v.0 == Some(o.cases@) && v.1 == Some(o.checkpoint@)
                && v.2 == o.device && v.3 == o.warmup && v.4 == o.iters,
            Err(m) => r matches Err(e) && e@ == m,
        },
{
    let ghost a = arg_views(args@);
    let ghost env = text_view(checkpoint_env);
    let mut cases: Option<String> = None;
    let mut checkpoint = checkpoint_env;
    let mut device = DeviceRequest::Auto;
    let mut warmup: usize = 1;
    let mut iters: usize = 1;
    let mut i: usize = 0;
    while i < args.len()
        invariant
            i <= args@.len(),
            a == arg_views(args@),
            env == text_view(checkpoint_env),
            suite_from(a, 0, (None, env, DeviceRequest::Auto, 1, 1)) == suite_from(
                a,
                i as int,
                (
                    text_view(cases),
                    text_view(checkpoint),
                    device,
                    warmup as int,
                    iters as int,
                ),
            ),
        decreases args@.len() - i,
    {
        let f = args[i].as_str();
        proof {
            assert(a[i as int] == f@);
        }
        if str_eq(f, "--cases") {
            i = i + 1;
            if i >= args.len() {
                return Err(String::from_str("--cases needs a path"));
            }
            cases = Some(args[i].clone());
        } else if str_eq(f, "--checkpoint") {
            i = i + 1;
            if i >= args.len() {
                return Err(String::from_str("--checkpoint needs a path"));
            }
            checkpoint = Some(args[i].clone());
        } else if str_eq(f, "--device") {
            i = i + 1;
            if i >= args.len() {
                return Err(String::from_str("--device needs a value"));
            }
            match parse_device(args[i].as_str()) {
                Some(d) => {
                    device = d;
                },
                None => {
                    return Err(joined("unknown device ", args[i].as_str()));
                },
            }
        } else if str_eq(f, "--warmup") {
            i = i + 1;
            if i >= args.len() {
                return Err(String::from_str("--warmup needs a value"));
            }
            match parse_count(args[i].as_str(), "--warmup") {
                Ok(n) => {
                    warmup = n;
                },
                Err(m) => {
                    return Err(m);
                },
            }
        } else if str_eq(f, "--iters") {
            i = i + 1;
            if i >= args.len() {
                return Err(String::from_str("--iters needs a value"));
            }
            match parse_count(args[i].as_str(), "--iters") {
                Ok(n) => {
                    iters = n;
                },
                Err(m) => {
                    return Err(m);
                },
            }
        } else {
            return Err(joined("unknown flag ", f));
        }
        i = i + 1;
    }
    let cases = match cases {
        Some(c) => c,
        None => {
            return Err(String::from_str("suite requires --cases FILE"));
        },
    };
    let checkpoint = match checkpoint {
        Some(c) => c,
        None => {
            return Err(String::from_str("suite requires APOFASI_CHECKPOINT or --checkpoint"));
        },
    };
    Ok(SuiteOpts { cases, checkpoint, device, warmup, iters })
}

} // verus!
