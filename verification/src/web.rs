use vstd::prelude::*;
use crate::decimal::{append_decimal, decimal_chars, decimal_string, digit_str};
use crate::stat::LogInfo;
use vstd::string::StrSliceExecFns;

verus! {

/// One named value of the status report.
pub struct IdValue {
    pub id: String,
    pub value: String,
}

/// Two decimal digits of `n`, with a leading zero below ten.
pub open spec fn two_digit_chars(n: nat) -> Seq<char> {
    seq![(48 + n / 10) as char, (48 + n % 10) as char]
}

/// Whole days, hours of the day, minutes of the hour and seconds of the
/// minute in `secs` seconds.
pub open spec fn time_parts(secs: nat) -> (nat, nat, nat, nat) {
    (secs / 86400, (secs / 3600) % 24, (secs / 60) % 60, secs % 60)
}

/// `secs` written as `"<days> days, <hh>:<mm>:<ss>"`.
pub open spec fn timef_text(secs: nat) -> Seq<char> {
    let (d, h, m, s) = time_parts(secs);
    decimal_chars(d) + " days, "@ + two_digit_chars(h) + ":"@ + two_digit_chars(m) + ":"@
        + two_digit_chars(s)
}

/// The parts of a duration add up to it, and each but the days stays
/// within its unit.
pub proof fn lemma_time_parts(secs: nat)
    ensures
        ({
            let (d, h, m, s) = time_parts(secs);
            &&& d * 86400 + h * 3600 + m * 60 + s == secs
            &&& h < 24
            &&& m < 60
            &&& s < 60
        }),
{
    let (d, h, m, s) = time_parts(secs);
    assert(secs == 60 * (secs / 60) + s);
    assert(secs / 60 == 60 * (secs / 3600) + m) by {
        vstd::arithmetic::div_mod::lemma_div_denominator(secs as int, 60, 60);
    }
    assert(secs / 3600 == 24 * (secs / 86400) + h) by {
        vstd::arithmetic::div_mod::lemma_div_denominator(secs as int, 3600, 24);
    }
}

/// Appends two decimal digits of `n`, with a leading zero below ten.
fn append_two_digits(out: &mut String, n: u64)
    requires
        n < 100,
    ensures
        final(out)@ == old(out)@ + two_digit_chars(n as nat),
{
    out.append(digit_str((n / 10) as u8));
    out.append(digit_str((n % 10) as u8));
    assert(final(out)@ =~= old(out)@ + two_digit_chars(n as nat));
}

/// Writes a duration in seconds as `"<days> days, <hh>:<mm>:<ss>"`.
pub fn sec_to_timef(secs: u64) -> (r: String)
    ensures
        r@ == timef_text(secs as nat),
{
    let day = secs / 86400;
    let hour = (secs / 3600) % 24;
    let min = (secs / 60) % 60;
    let sec = secs % 60;
    let mut out = String::new();
    append_decimal(&mut out, day);
    out.append(" days, ");
    append_two_digits(&mut out, hour);
    out.append(":");
    append_two_digits(&mut out, min);
    out.append(":");
    append_two_digits(&mut out, sec);
    assert(out@ =~= timef_text(secs as nat));
    out
}

/// Runs per second over `elapsed` seconds; zero when no second has passed.
pub open spec fn exec_speed(exec_count: nat, elapsed: nat) -> nat {
    if elapsed == 0 {
        0
    } else {
        exec_count / elapsed
    }
}

/// The execution speed counts the runs per whole elapsed second, rounded
/// down: its product with the elapsed time is at most the number of runs,
/// and one more run per second would exceed it. It is 0 when no time has
/// elapsed, and otherwise only when fewer runs than seconds were made.
pub proof fn lemma_exec_speed(exec_count: nat, elapsed: nat)
    ensures
        elapsed == 0 ==> exec_speed(exec_count, elapsed) == 0,
        elapsed > 0 ==> exec_speed(exec_count, elapsed) * elapsed <= exec_count,
        elapsed > 0 ==> exec_count < (exec_speed(exec_count, elapsed) + 1) * elapsed,
        exec_speed(exec_count, elapsed) == 0 <==> (elapsed == 0 || exec_count < elapsed),
{
    if elapsed > 0 {
        let q = exec_count / elapsed;
        let r = exec_count % elapsed;
        vstd::arithmetic::div_mod::lemma_fundamental_div_mod(exec_count as int, elapsed as int);
        vstd::arithmetic::div_mod::lemma_mod_pos_bound(exec_count as int, elapsed as int);
        assert(q * elapsed <= exec_count < (q + 1) * elapsed) by (nonlinear_arith)
            requires
                exec_count == elapsed * q + r,
                0 <= r < elapsed,
        ;
        assert(q == 0 <==> exec_count < elapsed) by (nonlinear_arith)
            requires
                q * elapsed <= exec_count < (q + 1) * elapsed,
                q >= 0,
                elapsed > 0,
        ;
    }
}

/// A report entry from a name and a value.
fn entry(id: &str, value: String) -> (r: IdValue)
    ensures
        r.id@ == id@,
        r.value == value,
{
    IdValue { id: String::from_str(id), value }
}

/// The status report of a session that has run for `elapsed` seconds:
/// the seed, crash, distinct crash and node counts, the running time and
/// the runs per second, in that order.
pub fn info_entries(info: &LogInfo, elapsed: u64) -> (r: Vec<IdValue>)
    ensures
        r@.len() == 6,
        r@[0].id@ == "seed_count"@,
        r@[0].value@ == decimal_chars(info.seed_count as nat),
        r@[1].id@ == "crash_count"@,
        r@[1].value@ == decimal_chars(info.crash_count as nat),
        r@[2].id@ == "uniq_crash_count"@,
        r@[2].value@ == decimal_chars(info.uniq_crash_count as nat),
        r@[3].id@ == "total_node"@,
        r@[3].value@ == decimal_chars(info.total_node as nat),
        r@[4].id@ == "time"@,
        r@[4].value@ == timef_text(elapsed as nat),
        r@[5].id@ == "execspeed"@,
        r@[5].value@ == decimal_chars(exec_speed(info.exec_count as nat, elapsed as nat)),
{
    let speed: u64 = if elapsed == 0 {
        0
    } else {
        info.exec_count / elapsed
    };
    let mut r: Vec<IdValue> = Vec::new();
    r.push(entry("seed_count", decimal_string(info.seed_count as u64)));
    r.push(entry("crash_count", decimal_string(info.crash_count as u64)));
    r.push(entry("uniq_crash_count", decimal_string(info.uniq_crash_count as u64)));
    r.push(entry("total_node", decimal_string(info.total_node as u64)));
    r.push(entry("time", sec_to_timef(elapsed)));
    r.push(entry("execspeed", decimal_string(speed)));
    r
}

/// `p` holds a `..` segment at position `i`: two dots between separators
/// or the ends of the path.
pub open spec fn parent_segment_at(p: Seq<char>, i: int) -> bool {
    &&& 0 <= i
    &&& i + 2 <= p.len()
    &&& p[i] == '.'
    &&& p[i + 1] == '.'
    &&& (i == 0 || p[i - 1] == '/')
    &&& (i + 2 == p.len() || p[i + 2] == '/')
}

/// A path that the status server may serve a file from: it does not start
/// at the root and has no `..` segment.
pub open spec fn path_accepted(p: Seq<char>) -> bool {
    &&& !(p.len() > 0 && p[0] == '/')
    &&& !exists|i: int| parent_segment_at(p, i)
}

/// `rustful::file::check_path` on `Path::new(p)`: it rejects a path whose
/// components include a root, a prefix or a parent directory. On Unix,
/// `Path::components` yields a root exactly for a leading `/`, a parent
/// directory for each `..` segment and never a prefix, so it accepts
/// exactly the paths of `path_accepted`.
#[verifier::external_body]
fn check_file_path(p: &str) -> (r: bool)
    ensures
        r == path_accepted(p@),
{
    rustful::file::check_path(std::path::Path::new(p)).is_ok()
}

/// How the status server answers a request for a file.
#[derive(Debug, PartialEq, Eq)]
pub enum FileRoute {
    Forbidden,
    Serve(String),
}

/// `base` followed by `rest`, with a `/` in between unless `base` is empty
/// or already ends with one.
pub open spec fn joined_path(base: Seq<char>, rest: Seq<char>) -> Seq<char> {
    if base.len() == 0 || base.last() == '/' {
        base + rest
    } else {
        base + "/"@ + rest
    }
}

/// Decides a request for the file `file` of the user interface under
/// `path_base`: forbidden when no file is named or its path is not
/// accepted, otherwise served from `path_base/ui/<file>`.
pub fn file_route(file: Option<&str>, path_base: &str) -> (r: FileRoute)
    ensures
        file is None ==> r is Forbidden,
        file is Some && !path_accepted(file.unwrap()@) ==> r is Forbidden,
        file is Some && path_accepted(file.unwrap()@) ==> (r matches FileRoute::Serve(path)
            && path@ == joined_path(path_base@, "ui/"@ + file.unwrap()@)),
{
    match file {
        None => FileRoute::Forbidden,
        Some(f) => {
            if !check_file_path(f) {
                return FileRoute::Forbidden;
            }
            let mut path = String::from_str(path_base);
            let n = path_base.unicode_len();
            if n != 0 && path_base.get_char(n - 1) != '/' {
                path.append("/");
            }
            path.append("ui/");
            path.append(f);
            assert(path@ =~= joined_path(path_base@, "ui/"@ + f@));
            FileRoute::Serve(path)
        },
    }
}

} // verus!
