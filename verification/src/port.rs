//! Finding the process that holds a port, from the output of the platform's lookup
//! command (`netstat` on Windows, `lsof` elsewhere).

use vstd::prelude::*;

use crate::error::WrathError;
use crate::inspect::{occurs_at, views};
use crate::text::{
    chars_of, decimal, is_whitespace, is_ws, lemma_pieces_from, lemma_pieces_join, lemma_pieces_single, parse_unsigned, parse_unsigned_range,
    piece_end, pieces, push_decimal, push_str, range_is, trim, trim_range,
};

verus! {

/// The platform whose lookup command produced an output.
#[derive(Debug, Clone, Copy, PartialEq, Eq, Structural)]
pub enum Platform {
    /// `netstat -ano | findstr :PORT`: one connection per line, the PID last.
    Windows,
    /// `lsof -i :PORT -t`: one PID per line.
    Unix,
}

/// The lines of `s`: the pieces between its line feeds, in order (a carriage return
/// before a line feed stays at the end of its line, where trimming drops it).
pub open spec fn split_lines(s: Seq<char>) -> Seq<Seq<char>> {
    pieces(s, '\n')
}

/// The PID written by `word`: an unsigned decimal number that fits in 32 bits and
/// is not zero.
pub open spec fn pid_in(word: Seq<char>) -> Option<u32> {
    match parse_unsigned(word) {
        Some(v) => if 0 < v && v <= u32::MAX {
            Some(v as u32)
        } else {
            None
        },
        None => None,
    }
}

/// Whether `pat` occurs somewhere in `t`.
pub open spec fn contains_text(t: Seq<char>, pat: Seq<char>) -> bool {
    exists|i: int| occurs_at(t, pat, i)
}

/// Where the last run of non-whitespace of `t` starts: just after its last
/// whitespace character, or 0 when it has none.
pub open spec fn after_last_ws(t: Seq<char>) -> int
    decreases t.len(),
{
    if t.len() == 0 {
        0
    } else if is_ws(t.last()) {
        t.len() as int
    } else {
        after_last_ws(t.drop_last())
    }
}

/// The last whitespace-separated word of `t`, for a `t` that does not end in
/// whitespace.
pub open spec fn last_word(t: Seq<char>) -> Seq<char> {
    t.subrange(after_last_ws(t), t.len() as int)
}

/// The PID on a line of `netstat` output: the last column of a `LISTENING` line.
pub open spec fn netstat_line_pid(line: Seq<char>) -> Option<u32> {
    let t = trim(line);
    if contains_text(t, "LISTENING"@) {
        pid_in(last_word(t))
    } else {
        None
    }
}

/// The PID on a line of `lsof -t` output: the whole line.
pub open spec fn lsof_line_pid(line: Seq<char>) -> Option<u32> {
    pid_in(trim(line))
}

/// The PID a line gives on `platform`, if any.
pub open spec fn line_pid(line: Seq<char>, platform: Platform) -> Option<u32> {
    match platform {
        Platform::Windows => netstat_line_pid(line),
        Platform::Unix => lsof_line_pid(line),
    }
}

/// The PID given by the first line of `lines` that gives one.
pub open spec fn first_pid(lines: Seq<Seq<char>>, platform: Platform) -> Option<u32>
    decreases lines.len(),
{
    if lines.len() == 0 {
        None
    } else {
        match line_pid(lines[0], platform) {
            Some(p) => Some(p),
            None => first_pid(lines.drop_first(), platform),
        }
    }
}

/// What the lookup output `output` says of `port`: the first PID it gives, or no
/// process on the port.
pub open spec fn pid_from_output(output: Seq<char>, port: u16, platform: Platform) -> Result<
    u32,
    WrathError,
> {
    match first_pid(split_lines(output), platform) {
        Some(p) => Ok(p),
        None => Err(WrathError::NoProcessOnPort(port)),
    }
}

/// The first line decides: when a line (without line feed) gives a PID, the output
/// that starts with that line gives that PID, whatever follows; when it gives none,
/// the output gives what the rest after its line feed gives.
pub proof fn first_line_decides(line: Seq<char>, rest: Seq<char>, port: u16, platform: Platform)
    requires
        forall|i: int| 0 <= i < line.len() ==> line[i] != '\n',
    ensures
        pid_from_output(line + "\n"@ + rest, port, platform) == match line_pid(line, platform) {
            Some(p) => Ok(p),
            None => pid_from_output(rest, port, platform),
        },
        line_pid(line, platform) matches Some(p) ==> pid_from_output(line, port, platform) == Ok::<
            u32,
            WrathError,
        >(p),
{
    reveal_strlit("\n");
    assert(line + "\n"@ =~= line + seq!['\n']);
    lemma_pieces_join(line, '\n', rest);
    lemma_pieces_single(line, '\n');
    let lines = seq![line] + split_lines(rest);
    assert(lines[0] == line);
    assert(lines.drop_first() =~= split_lines(rest));
    assert(seq![line][0] == line);
}

/// The characters `v[lo..hi]`.
fn chars_between(v: &Vec<char>, lo: usize, hi: usize) -> (r: Vec<char>)
    requires
        lo <= hi <= v@.len(),
    ensures
        r@ == v@.subrange(lo as int, hi as int),
{
    let mut r: Vec<char> = Vec::new();
    let mut i: usize = lo;
    while i < hi
        invariant
            lo <= i <= hi <= v@.len(),
            r@ == v@.subrange(lo as int, i as int),
        decreases hi - i,
    {
        r.push(v[i]);
        i = i + 1;
        assert(r@ =~= v@.subrange(lo as int, i as int));
    }
    r
}

/// Whether the text `pat` occurs in `t`.
fn has_text(t: &Vec<char>, pat: &str) -> (r: bool)
    ensures
        r == contains_text(t@, pat@),
{
    let n: usize = pat.unicode_len();
    if n > t.len() {
        assert forall|i: int| !occurs_at(t@, pat@, i) by {}
        return false;
    }
    let last: usize = t.len() - n;
    let mut i: usize = 0;
    loop
        invariant
            n == pat@.len(),
            n <= t@.len(),
            last == t@.len() - n,
            t@.len() <= usize::MAX,
            i <= last,
            forall|j: int| j < i ==> !occurs_at(t@, pat@, j),
        decreases last - i,
    {
        if range_is(t, i, i + n, pat) {
            assert(occurs_at(t@, pat@, i as int));
            return true;
        }
        if i == last {
            assert forall|j: int| !occurs_at(t@, pat@, j) by {}
            return false;
        }
        i = i + 1;
    }
}

/// Where the last word of `t` starts.
fn last_word_start(t: &Vec<char>) -> (w: usize)
    ensures
        w == after_last_ws(t@),
        w <= t@.len(),
{
    let mut k: usize = t.len();
    assert(t@.subrange(0, k as int) =~= t@);
    while k > 0 && !is_whitespace(t[k - 1])
        invariant
            k <= t@.len(),
            after_last_ws(t@) == after_last_ws(t@.subrange(0, k as int)),
        decreases k,
    {
        assert(t@.subrange(0, k as int).drop_last() =~= t@.subrange(0, k - 1));
        k = k - 1;
    }
    proof {
        if k > 0 {
            assert(t@.subrange(0, k as int).last() == t@[k - 1]);
        }
    }
    k
}

/// The PID written by `t[lo..hi]`, if it writes one.
fn read_pid(t: &Vec<char>, lo: usize, hi: usize) -> (r: Option<u32>)
    requires
        lo <= hi <= t@.len(),
    ensures
        r == pid_in(t@.subrange(lo as int, hi as int)),
{
    match parse_unsigned_range(t, lo, hi, 0xffff_ffff) {
        Some(x) => {
            if x > 0 {
                Some(x as u32)
            } else {
                None
            }
        },
        None => None,
    }
}

/// The PID that the line `v[lo..hi]` gives on `platform`.
fn pid_on_line(v: &Vec<char>, lo: usize, hi: usize, platform: Platform) -> (r: Option<u32>)
    requires
        lo <= hi <= v@.len(),
    ensures
        r == line_pid(v@.subrange(lo as int, hi as int), platform),
{
    let (a, b) = trim_range(v, lo, hi);
    let t = chars_between(v, a, b);
    match platform {
        Platform::Windows => {
            if !has_text(&t, "LISTENING") {
                return None;
            }
            let w = last_word_start(&t);
            read_pid(&t, w, t.len())
        },
        Platform::Unix => {
            assert(t@.subrange(0, t@.len() as int) =~= t@);
            read_pid(&t, 0, t.len())
        },
    }
}

/// The PID given by the first line of `output` that gives one on `platform`.
fn first_pid_in(output: &str, platform: Platform) -> (r: Option<u32>)
    ensures
        r == first_pid(split_lines(output@), platform),
{
    let v = chars_of(output);
    let n = v.len();
    let mut p: usize = 0;
    assert(v@.subrange(0, n as int) =~= v@);
    loop
        invariant
            n == v@.len(),
            v@ == output@,
            p <= n,
            first_pid(split_lines(output@), platform) == first_pid(
                split_lines(v@.subrange(p as int, n as int)),
                platform,
            ),
        decreases n - p,
    {
        let q = piece_end(&v, p, '\n');
        let found = pid_on_line(&v, p, q, platform);
        proof {
            lemma_pieces_from(v@, '\n', p as int, q as int);
            let line = v@.subrange(p as int, q as int);
            if q < n {
                let lines = seq![line] + split_lines(v@.subrange(q + 1, n as int));
                assert(lines.drop_first() =~= split_lines(v@.subrange(q + 1, n as int)));
            } else {
                assert(seq![line].drop_first() =~= Seq::<Seq<char>>::empty());
                assert(first_pid(seq![line].drop_first(), platform) == None::<u32>);
            }
        }
        if found.is_some() {
            return found;
        }
        if q == n {
            return None;
        }
        p = q + 1;
    }
}

/// Parse PID from Windows netstat output.
///
/// Looks for LISTENING lines and extracts the last column (PID).
pub fn parse_windows_netstat(output: &str, port: u16) -> (r: Result<u32, WrathError>)
    ensures
        r == pid_from_output(output@, port, Platform::Windows),
{
    match first_pid_in(output, Platform::Windows) {
        Some(pid) => Ok(pid),
        None => Err(WrathError::NoProcessOnPort(port)),
    }
}

/// Parse PID from Unix lsof -t output.
///
/// Each line is a PID. We take the first one.
pub fn parse_unix_lsof(output: &str, port: u16) -> (r: Result<u32, WrathError>)
    ensures
        r == pid_from_output(output@, port, Platform::Unix),
{
    match first_pid_in(output, Platform::Unix) {
        Some(pid) => Ok(pid),
        None => Err(WrathError::NoProcessOnPort(port)),
    }
}

/// Parse the PID from the output of the lookup command of `platform`.
///
/// On Windows, netstat output looks like:
///   TCP    0.0.0.0:3000    0.0.0.0:0    LISTENING    12345
/// On Unix, lsof -t output is just the PID per line.
pub fn parse_pid_from_output(output: &str, port: u16, platform: Platform) -> (r: Result<
    u32,
    WrathError,
>)
    ensures
        r == pid_from_output(output@, port, platform),
{
    match platform {
        Platform::Windows => parse_windows_netstat(output, port),
        Platform::Unix => parse_unix_lsof(output, port),
    }
}

/// The command that lists what holds `port` on `platform`: the program, then its
/// arguments.
pub open spec fn lookup_command_text(port: u16, platform: Platform) -> Seq<Seq<char>> {
    match platform {
        Platform::Windows => seq![
            "cmd"@,
            "/C"@,
            "netstat -ano | findstr :"@ + decimal(port as nat),
        ],
        Platform::Unix => seq!["sh"@, "-c"@, "lsof -i :"@ + decimal(port as nat) + " -t"@],
    }
}

/// The platform-specific command to find the PID using a port: the program, then
/// its arguments.
pub fn lookup_command(port: u16, platform: Platform) -> (r: Vec<String>)
    ensures
        views(r@) == lookup_command_text(port, platform),
{
    let mut script = String::new();
    let mut r: Vec<String> = Vec::new();
    match platform {
        Platform::Windows => {
            push_str(&mut script, "netstat -ano | findstr :");
            push_decimal(&mut script, port as u64);
            r.push("cmd".to_string());
            r.push("/C".to_string());
        },
        Platform::Unix => {
            push_str(&mut script, "lsof -i :");
            push_decimal(&mut script, port as u64);
            push_str(&mut script, " -t");
            r.push("sh".to_string());
            r.push("-c".to_string());
        },
    }
    r.push(script);
    assert(views(r@) =~= lookup_command_text(port, platform));
    r
}

/// Resolve a port number to the PID of the process using it, from what running the
/// lookup command gave: its standard output, or why it could not run.
pub fn resolve_port_to_pid(port: u16, lookup: Result<String, String>, platform: Platform) -> (r:
    Result<u32, WrathError>)
    ensures
        match lookup {
            Err(reason) => r matches Err(WrathError::PortResolutionFailed(p, m)) && p == port
                && m@ == reason@,
            Ok(output) => if trim(output@).len() == 0 {
                r == Err::<u32, WrathError>(WrathError::NoProcessOnPort(port))
            } else {
                r == pid_from_output(output@, port, platform)
            },
        },
{
    match lookup {
        Err(reason) => Err(WrathError::PortResolutionFailed(port, reason)),
        Ok(output) => {
            let v = chars_of(output.as_str());
            let (a, b) = trim_range(&v, 0, v.len());
            assert(v@.subrange(0, v@.len() as int) =~= output@);
            if a == b {
                Err(WrathError::NoProcessOnPort(port))
            } else {
                parse_pid_from_output(output.as_str(), port, platform)
            }
        },
    }
}

} // verus!
