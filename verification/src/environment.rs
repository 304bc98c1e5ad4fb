//! What is known of the machine that a benchmark ran on.
use crate::options::value_or;
use crate::text::{
    chars_of, contains, decimal, decimal_string, decimals_sort, found_at, occurs, precedes,
    precedes_after_prefix, shortened, stands_at, trim, trim_range, trimmed,
    trimmed_is_bare,
};
use std::time::{Duration, SystemTime, SystemTimeError, UNIX_EPOCH};
use vstd::prelude::*;
use vstd::utf8::{decode_utf8, valid_utf8};

verus! {

/// `std::time::SystemTime`, carried as it is.
#[verifier::external_type_specification]
#[verifier::external_body]
pub struct ExSystemTime(SystemTime);

/// `std::time::SystemTimeError`, carried as it is.
#[verifier::external_type_specification]
#[verifier::external_body]
pub struct ExSystemTimeError(SystemTimeError);

/// `SystemTime::now` reads the clock; nothing is claimed of what it shows.
#[verifier::external_body]
fn clock_now() -> (r: SystemTime) {
    SystemTime::now()
}

/// The time between the epoch and a clock reading; `None` where the reading comes before it.
pub uninterp spec fn time_since_epoch(now: SystemTime) -> Option<Duration>;

/// `SystemTime::duration_since(UNIX_EPOCH)` gives the time since the epoch, or an error where
/// the reading comes before it. Both are functions of the reading; how long it is, is named and
/// not stated.
#[verifier::external_body]
fn since_epoch(now: SystemTime) -> (r: Result<Duration, SystemTimeError>)
    ensures
        match r {
            Ok(d) => time_since_epoch(now) == Some(d),
            Err(_) => time_since_epoch(now) is None,
        },
{
    now.duration_since(UNIX_EPOCH)
}

/// The number of whole seconds in a duration.
pub uninterp spec fn seconds_in(d: Duration) -> u64;

/// `Duration::as_secs` gives the whole seconds of a duration, without its fraction.
#[verifier::external_body]
fn whole_seconds(d: &Duration) -> (r: u64)
    ensures
        r == seconds_in(*d),
{
    d.as_secs()
}

/// The text that `String::from_utf8_lossy` makes of some bytes.
pub uninterp spec fn utf8_lossy(bytes: Seq<u8>) -> Seq<char>;

/// `String::from_utf8_lossy` decodes bytes, with replacement characters for what is not UTF-8.
/// Bytes that are UTF-8 come out as the text they encode; of the others the text is named and
/// not stated.
#[verifier::external_body]
fn decode_lossy(bytes: &[u8]) -> (r: String)
    ensures
        r@ == utf8_lossy(bytes@),
        valid_utf8(bytes@) ==> r@ == decode_utf8(bytes@),
{
    String::from_utf8_lossy(bytes).to_string()
}

/// The stamp of a number of seconds since the epoch.
pub open spec fn stamp_text(seconds: nat) -> Seq<char> {
    seq!['t'] + decimal(seconds)
}

/// The stamp of a clock reading; a clock before the epoch counts as zero seconds.
pub fn stamp_of(seconds: Option<u64>) -> (r: String)
    ensures
        r@ == stamp_text(match seconds {
            Some(n) => n as nat,
            None => 0,
        }),
        r@ == seq!['t'] + decimal(match seconds {
            Some(n) => n as nat,
            None => 0,
        }),
{
    let n: u64 = match seconds {
        Some(n) => n,
        None => 0,
    };
    let mut r: String = String::new();
    r.push('t');
    let digits: String = decimal_string(n);
    r.append(digits.as_str());
    assert(r@ == stamp_text(n as nat));
    r
}

/// The whole seconds between the epoch and a clock reading; zero where it comes before it.
pub open spec fn epoch_seconds(now: SystemTime) -> nat {
    match time_since_epoch(now) {
        Some(d) => seconds_in(d) as nat,
        None => 0,
    }
}

/// A timestamp for platforms without a `date` program: the seconds since the epoch, of some
/// reading of the clock.
pub fn epoch_stamp() -> (r: String)
    ensures
        exists|now: SystemTime| r@ == stamp_text(#[trigger] epoch_seconds(now)),
{
    let now: SystemTime = clock_now();
    let seconds: Option<u64> = match since_epoch(now) {
        Ok(d) => Some(whole_seconds(&d)),
        Err(_) => None,
    };
    let r: String = stamp_of(seconds);
    assert(r@ == stamp_text(epoch_seconds(now)));
    r
}

/// Stamps of different times differ. A stamp sorts before a later one exactly when its seconds
/// are at most the later ones cut down to as many digits; so stamps sort by time as long as
/// the seconds keep their number of digits.
pub proof fn stamps_are_unique_and_sort(a: nat, b: nat)
    requires
        a < b,
    ensures
        stamp_text(a) != stamp_text(b),
        precedes(stamp_text(a), stamp_text(b)) <==> a <= shortened(
            b,
            (decimal(b).len() - decimal(a).len()) as nat,
        ),
        decimal(a).len() == decimal(b).len() ==> precedes(stamp_text(a), stamp_text(b)),
{
    decimals_sort(a, b);
    precedes_after_prefix(seq!['t'], decimal(a), decimal(b));
    if stamp_text(a) == stamp_text(b) {
        assert(decimal(a) == stamp_text(a).skip(1));
        assert(decimal(b) == stamp_text(b).skip(1));
    }
}

/// What is kept of a program's output: its trimmed text where the program succeeded and said
/// anything.
pub open spec fn kept_output(success: bool, text: Seq<char>) -> Option<Seq<char>> {
    if success && trimmed(text).len() > 0 {
        Some(trimmed(text))
    } else {
        None
    }
}

/// The characters of an optional string.
pub open spec fn text_of(s: Option<String>) -> Option<Seq<char>> {
    match s {
        Some(s) => Some(s@),
        None => None,
    }
}

/// Keeps a program's output where it succeeded and said anything.
pub fn accept_output(success: bool, text: &str) -> (r: Option<String>)
    ensures
        text_of(r) == kept_output(success, text@),
{
    if !success {
        return None;
    }
    let bare: String = trim(text);
    if bare.as_str().is_empty() {
        None
    } else {
        Some(bare)
    }
}

/// Keeps the raw output of a program where it succeeded and said anything.
pub fn command_output(success: bool, stdout: &[u8]) -> (r: Option<String>)
    ensures
        text_of(r) == kept_output(success, utf8_lossy(stdout@)),
{
    let text: String = decode_lossy(stdout);
    accept_output(success, text.as_str())
}

/// Where a character first occurs; the length of the string where it does not.
pub open spec fn break_at(s: Seq<char>, c: char) -> nat
    decreases s.len(),
{
    if s.len() == 0 || s[0] == c {
        0
    } else {
        1 + break_at(s.skip(1), c)
    }
}

/// The string without a carriage return at its end.
pub open spec fn without_return(s: Seq<char>) -> Seq<char> {
    if s.len() > 0 && s.last() == '\r' {
        s.drop_last()
    } else {
        s
    }
}

/// The lines of a text, without their line ends.
pub open spec fn lines(s: Seq<char>) -> Seq<Seq<char>>
    decreases s.len(),
{
    if s.len() == 0 {
        Seq::empty()
    } else {
        let k = break_at(s, '\n') as int;
        if k >= s.len() {
            seq![s]
        } else {
            seq![without_return(s.take(k))] + lines(s.skip(k + 1))
        }
    }
}

/// The first line that begins in a given way.
pub open spec fn first_line(all: Seq<Seq<char>>, start: Seq<char>) -> Option<Seq<char>>
    decreases all.len(),
{
    if all.len() == 0 {
        None
    } else if found_at(all[0], start, 0) {
        Some(all[0])
    } else {
        first_line(all.skip(1), start)
    }
}

/// What stands between the first and the second occurrence of a character, or the end.
pub open spec fn second_field(line: Seq<char>, c: char) -> Option<Seq<char>> {
    let k = break_at(line, c) as int;
    if k >= line.len() {
        None
    } else {
        let rest = line.skip(k + 1);
        Some(rest.take(break_at(rest, c) as int))
    }
}

/// The processor model that a `/proc/cpuinfo` text names.
pub open spec fn cpuinfo_model(info: Seq<char>) -> Option<Seq<char>> {
    match first_line(lines(info), "model name"@) {
        None => None,
        Some(line) => match second_field(line, ':') {
            None => None,
            Some(field) => Some(trimmed(field)),
        },
    }
}

fn find_char(v: &Vec<char>, start: usize, end: usize, c: char) -> (r: usize)
    requires
        start <= end <= v@.len(),
    ensures
        r == start + break_at(v@.subrange(start as int, end as int), c),
        start <= r <= end,
        r < end ==> v@[r as int] == c,
{
    let mut i: usize = start;
    while i < end && v[i] != c
        invariant
            start <= i <= end <= v@.len(),
            start + break_at(v@.subrange(start as int, end as int), c) == i + break_at(
                v@.subrange(i as int, end as int),
                c,
            ),
        decreases end - i,
    {
        assert(v@.subrange(i as int, end as int).skip(1) == v@.subrange(i + 1, end as int));
        i += 1;
    }
    i
}

/// Finds the processor model that a `/proc/cpuinfo` text names.
pub fn model_name(info: &str) -> (r: Option<String>)
    ensures
        text_of(r) == cpuinfo_model(info@),
{
    let v: Vec<char> = chars_of(info);
    let wanted: Vec<char> = chars_of("model name");
    let mut start: usize = 0;
    assert(v@.skip(0) == info@);
    while start < v.len()
        invariant
            v@ == info@,
            wanted@ == "model name"@,
            start <= v@.len(),
            first_line(lines(info@), "model name"@) == first_line(
                lines(v@.skip(start as int)),
                "model name"@,
            ),
        decreases v@.len() - start,
    {
        let len: usize = v.len();
        let end: usize = find_char(&v, start, len, '\n');
        let ghost rest = v@.skip(start as int);
        assert(v@.subrange(start as int, len as int) == rest);
        let stop: usize = if start < end && end < len && v[end - 1] == '\r' {
            end - 1
        } else {
            end
        };
        let ghost line = v@.subrange(start as int, stop as int);
        proof {
            let k = break_at(rest, '\n') as int;
            assert(end == start + k);
            if end < len {
                assert(rest.take(k) == v@.subrange(start as int, end as int));
                assert(without_return(rest.take(k)) == line) by {
                    if k > 0 {
                        assert(rest.take(k).last() == v@[end - 1]);
                        assert(rest.take(k).drop_last() == v@.subrange(start as int, end - 1));
                    }
                }
                assert(rest.skip(k + 1) == v@.skip(end + 1));
                assert(lines(rest) == seq![line] + lines(v@.skip(end + 1)));
                assert((seq![line] + lines(v@.skip(end + 1))).skip(1) == lines(v@.skip(end + 1)));
            } else {
                assert(line == rest);
                assert(lines(rest) == seq![line]);
                assert(seq![line].skip(1) == Seq::<Seq<char>>::empty());
            }
            assert(lines(rest)[0] == line);
        }
        let begins: bool = stop - start >= wanted.len() && stands_at(&v, &wanted, start);
        proof {
            if stop - start >= wanted@.len() {
                assert(line.subrange(0, wanted@.len() as int) == v@.subrange(
                    start as int,
                    start + wanted@.len(),
                ));
            }
            assert(begins == found_at(line, "model name"@, 0));
        }
        if begins {
            let colon: usize = find_char(&v, start, stop, ':');
            if colon == stop {
                return None;
            }
            let next: usize = find_char(&v, colon + 1, stop, ':');
            proof {
                let k = break_at(line, ':') as int;
                let tail = line.skip(k + 1);
                assert(tail == v@.subrange(colon + 1, stop as int));
                assert(tail.take(break_at(tail, ':') as int) == v@.subrange(
                    colon + 1,
                    next as int,
                ));
            }
            return Some(trim_range(&v, colon + 1, next));
        }
        if end == len {
            proof {
                let none = Seq::<Seq<char>>::empty();
                assert(lines(rest).skip(1) == none);
                assert(first_line(none, "model name"@) is None);
            }
            return None;
        }
        start = end + 1;
    }
    assert(v@.skip(start as int) == Seq::<char>::empty());
    None
}

/// The label of a processor: the first of what the system call names, what `/proc/cpuinfo`
/// names, and the architecture that says anything.
pub open spec fn brand(
    sysctl: Option<Seq<char>>,
    cpuinfo: Option<Seq<char>>,
    arch: Seq<char>,
) -> Seq<char> {
    match sysctl {
        Some(s) if trimmed(s).len() > 0 => trimmed(s),
        _ => match cpuinfo {
            None => arch,
            Some(info) => match cpuinfo_model(info) {
                Some(model) => if model.len() > 0 {
                    model
                } else {
                    arch
                },
                None => arch,
            },
        },
    }
}

/// The label of the processor.
pub fn cpu_brand(sysctl: Option<String>, cpuinfo: Option<String>, arch: &str) -> (r: String)
    ensures
        r@ == brand(text_of(sysctl), text_of(cpuinfo), arch@),
{
    if let Some(s) = sysctl {
        let named: String = trim(s.as_str());
        if !named.as_str().is_empty() {
            return named;
        }
    }
    if let Some(info) = cpuinfo {
        if let Some(model) = model_name(info.as_str()) {
            if !model.as_str().is_empty() {
                return model;
            }
        }
    }
    arch.to_string()
}

/// Every machine is labeled: where the architecture has a name without white space around it,
/// the label is not empty and has none around it either.
pub proof fn machines_are_labeled(
    sysctl: Option<Seq<char>>,
    cpuinfo: Option<Seq<char>>,
    arch: Seq<char>,
)
    requires
        arch.len() > 0,
        trimmed(arch) == arch,
    ensures
        brand(sysctl, cpuinfo, arch).len() > 0,
        trimmed(brand(sysctl, cpuinfo, arch)) == brand(sysctl, cpuinfo, arch),
{
    if let Some(s) = sysctl {
        trimmed_is_bare(s);
    }
    if let Some(info) = cpuinfo {
        if let Some(line) = first_line(lines(info), "model name"@) {
            if let Some(field) = second_field(line, ':') {
                trimmed_is_bare(field);
            }
        }
    }
}

/// What the machine said when it was asked.
#[derive(Debug)]
pub struct Probe {
    pub cpu: String,
    pub cores: Option<usize>,
    pub os: String,
    pub arch: String,
    pub rustc: Option<String>,
    pub rayon_threads: Option<String>,
    /// What the power management says of the batteries.
    pub power: Option<String>,
}

/// What a comparison reports of the machine.
#[derive(Debug)]
pub struct Environment {
    pub cpu: String,
    pub cores: usize,
    pub os: String,
    pub rustc: String,
    pub rayon_threads: String,
    pub on_ac_power: bool,
    pub candle_version: String,
    pub burn_version: String,
    pub ort_version: String,
}

/// Puts together what a comparison reports of the machine. What could not be found out is
/// empty, zero or `unset`; power from the mains is claimed only where the machine says so.
pub fn capture_env(probe: Probe) -> (r: Environment)
    ensures
        r.cpu@ == probe.cpu@,
        r.cores == (match probe.cores {
            Some(n) => n,
            None => 0,
        }),
        r.os@ == probe.os@ + " "@ + probe.arch@,
        r.rustc@ == (match probe.rustc {
            Some(s) => s@,
            None => ""@,
        }),
        r.rayon_threads@ == (match probe.rayon_threads {
            Some(s) => s@,
            None => "unset"@,
        }),
        r.on_ac_power <==> (probe.power matches Some(s) && occurs(s@, "AC Power"@)),
        r.candle_version@ == "0.9"@,
        r.burn_version@ == "0.21"@,
        r.ort_version@ == "none"@,
{
    let on_ac_power: bool = match &probe.power {
        Some(s) => contains(s.as_str(), "AC Power"),
        None => false,
    };
    let cores: usize = match probe.cores {
        Some(n) => n,
        None => 0,
    };
    let mut os: String = probe.os.clone();
    os.append(" ");
    os.append(probe.arch.as_str());
    Environment {
        cpu: probe.cpu,
        cores,
        os,
        rustc: value_or(probe.rustc, ""),
        rayon_threads: value_or(probe.rayon_threads, "unset"),
        on_ac_power,
        candle_version: "0.9".to_string(),
        burn_version: "0.21".to_string(),
        ort_version: "none".to_string(),
    }
}

/// What a single pass reports of the machine.
#[derive(Debug)]
pub struct SinglePassEnvironment {
    pub cpu: String,
    pub cores: usize,
    pub os: String,
    pub rustc: String,
    pub rayon_threads: String,
    pub candle_version: String,
    pub burn_version: String,
}

/// Puts together what a single pass reports of the machine.
pub fn capture_single_pass_env(probe: Probe) -> (r: SinglePassEnvironment)
    ensures
        r.cpu@ == probe.cpu@,
        r.cores == (match probe.cores {
            Some(n) => n,
            None => 0,
        }),
        r.os@ == probe.os@ + " "@ + probe.arch@,
        r.rustc@ == (match probe.rustc {
            Some(s) => s@,
            None => ""@,
        }),
        r.rayon_threads@ == (match probe.rayon_threads {
            Some(s) => s@,
            None => "unset"@,
        }),
        r.candle_version@ == "0.9"@,
        r.burn_version@ == "0.21"@,
{
    let whole: Environment = capture_env(probe);
    SinglePassEnvironment {
        cpu: whole.cpu,
        cores: whole.cores,
        os: whole.os,
        rustc: whole.rustc,
        rayon_threads: whole.rayon_threads,
        candle_version: whole.candle_version,
        burn_version: whole.burn_version,
    }
}

proof fn lemma_break(a: Seq<char>, c: char, b: Seq<char>)
    requires
        forall|i: int| 0 <= i < a.len() ==> #[trigger] a[i] != c,
    ensures
        break_at(a + seq![c] + b, c) == a.len(),
        break_at(a, c) == a.len(),
    decreases a.len(),
{
    let s = a + seq![c] + b;
    if a.len() == 0 {
        assert(s[0] == c);
    } else {
        let rest = a.skip(1);
        assert forall|i: int| 0 <= i < rest.len() implies #[trigger] rest[i] != c by {
            assert(rest[i] == a[i + 1]);
        }
        lemma_break(rest, c, b);
        assert(s.skip(1) =~= rest + seq![c] + b);
        assert(s[0] == a[0]);
    }
}

proof fn lemma_next_line(line: Seq<char>, rest: Seq<char>)
    requires
        forall|i: int| 0 <= i < line.len() ==> #[trigger] line[i] != '\n',
    ensures
        lines(line + seq!['\n'] + rest) == seq![without_return(line)] + lines(rest),
{
    let s = line + seq!['\n'] + rest;
    lemma_break(line, '\n', rest);
    assert(s.take(line.len() as int) =~= line);
    assert(s.skip(line.len() as int + 1) =~= rest);
}

/// A line that does not begin with `model name` says nothing of the processor's model, and a text
/// without lines says nothing either.
pub proof fn other_lines_are_passed_over(line: Seq<char>, rest: Seq<char>)
    requires
        forall|i: int| 0 <= i < line.len() ==> #[trigger] line[i] != '\n',
        !(line.len() >= 10 && line.take(10) == "model name"@),
    ensures
        cpuinfo_model(line + seq!['\n'] + rest) == cpuinfo_model(rest),
        cpuinfo_model(Seq::empty()) is None,
{
    reveal_strlit("model name");
    lemma_next_line(line, rest);
    let bare = without_return(line);
    let all = seq![bare] + lines(rest);
    assert(all.skip(1) =~= lines(rest));
    assert(all[0] == bare);
    if found_at(bare, "model name"@, 0) {
        assert(bare.subrange(0, 10) =~= line.take(10));
    }
    assert(lines(Seq::<char>::empty()) == Seq::<Seq<char>>::empty());
}

/// The first line that begins with `model name` names the model: what stands behind its first
/// colon, up to the next one or the end of the line, without white space around it.
pub proof fn model_stands_behind_the_colon(
    gap: Seq<char>,
    value: Seq<char>,
    more: Seq<char>,
    rest: Seq<char>,
)
    requires
        forall|i: int| 0 <= i < gap.len() ==> #[trigger] gap[i] != ':' && gap[i] != '\n',
        forall|i: int|
            0 <= i < value.len() ==> #[trigger] value[i] != ':' && value[i] != '\n' && value[i]
                != '\r',
        forall|i: int| 0 <= i < more.len() ==> #[trigger] more[i] != '\n' && more[i] != '\r',
        more.len() > 0 ==> more[0] == ':',
    ensures
        cpuinfo_model(
            ("model name"@ + gap) + seq![':'] + (value + more) + seq!['\n'] + rest,
        ) == Some(trimmed(value)),
{
    reveal_strlit("model name");
    let head = "model name"@ + gap;
    let line = head + seq![':'] + (value + more);
    assert forall|i: int| 0 <= i < head.len() implies #[trigger] head[i] != ':' && head[i]
        != '\n' by {
        if i >= 10 {
            assert(head[i] == gap[i - 10]);
        }
    }
    assert forall|i: int| 0 <= i < line.len() implies #[trigger] line[i] != '\n' by {
        let n = head.len() + 1;
        if i < head.len() {
            assert(line[i] == head[i]);
        } else if i >= n {
            if i - n < value.len() {
                assert(line[i] == value[i - n]);
            } else {
                assert(line[i] == more[i - n - value.len()]);
            }
        }
    }
    lemma_next_line(line, rest);
    let n = line.len() as int;
    assert(line.last() != '\r') by {
        if more.len() > 0 {
            assert(line[n - 1] == more[more.len() - 1]);
        } else if value.len() > 0 {
            assert(line[n - 1] == value[value.len() - 1]);
        } else {
            assert(line[n - 1] == ':');
        }
    }
    assert(without_return(line) == line);
    let all = seq![line] + lines(rest);
    assert(all[0] == line);
    assert(line.subrange(0, 10) =~= "model name"@);
    assert(found_at(line, "model name"@, 0));
    lemma_break(head, ':', value + more);
    let tail = line.skip(head.len() as int + 1);
    assert(tail =~= value + more);
    if more.len() > 0 {
        lemma_break(value, ':', more.skip(1));
        assert(value + more =~= value + seq![':'] + more.skip(1));
    } else {
        lemma_break(value, ':', Seq::empty());
        assert(value + more =~= value);
    }
    assert(tail.take(value.len() as int) =~= value);
}

/// The label is what the system call names where that is anything but white space, else the model
/// that `/proc/cpuinfo` names where it is not empty, else the architecture.
pub proof fn labels_fall_back(sysctl: Seq<char>, info: Seq<char>, arch: Seq<char>)
    ensures
        trimmed(sysctl).len() > 0 ==> brand(Some(sysctl), None, arch) == trimmed(sysctl) && brand(
            Some(sysctl),
            Some(info),
            arch,
        ) == trimmed(sysctl),
        trimmed(sysctl).len() == 0 ==> brand(Some(sysctl), Some(info), arch) == brand(
            None,
            Some(info),
            arch,
        ) && brand(Some(sysctl), None, arch) == arch,
        brand(None, None, arch) == arch,
        cpuinfo_model(info) is None ==> brand(None, Some(info), arch) == arch,
        cpuinfo_model(info) matches Some(model) ==> brand(None, Some(info), arch) == (
        if model.len() > 0 {
            model
        } else {
            arch
        }),
{
}

/// A program's output is kept without the white space around it, whatever that is, where the
/// program succeeded and there is anything else; else nothing is kept.
pub proof fn output_is_kept_bare(text: Seq<char>)
    ensures
        kept_output(false, text) is None,
        kept_output(true, text) is None <==> trimmed(text).len() == 0,
        kept_output(true, text) matches Some(kept) ==> kept == trimmed(text),
{
}

} // verus!
