//! Battle.net processes: reading a `tasklist /FO CSV /NH` listing, waiting for
//! Battle.net to exit, and locating the client's executable.
use vstd::prelude::*;

use crate::text::{
    all_digits, chars_of, chars_starts_with, concat_str, has_prefix, lower, lower_text,
    parse_unsigned, parse_unsigned_chars, string_of, trim_chars, trimmed,
};

verus! {

// ─── Decoding the listing ─────────────────────────────────────────────

/// What `String::from_utf8_lossy` gives for a byte sequence.
pub uninterp spec fn utf8_lossy(b: Seq<u8>) -> Seq<char>;

/// std's `String::from_utf8_lossy`, made owned.
/// Trusted: the result is `utf8_lossy` of the bytes; bytes that are all ASCII decode
/// to the characters with the same codes (ASCII is valid UTF-8). Nothing more is
/// stated of other input (invalid sequences become U+FFFD).
#[verifier::external_body]
fn decode_lossy(b: &Vec<u8>) -> (r: String)
    ensures
        r@ == utf8_lossy(b@),
        (forall|i: int| 0 <= i < b@.len() ==> b@[i] < 128) ==> (r@.len() == b@.len() && forall|
            i: int,
        |
            0 <= i < b@.len() ==> r@[i] as u32 == b@[i] as u32),
{
    String::from_utf8_lossy(b.as_slice()).into_owned()
}

// ─── Lines ────────────────────────────────────────────────────────────

/// A line without one trailing carriage return.
pub open spec fn strip_cr(l: Seq<char>) -> Seq<char> {
    if l.len() > 0 && l.last() == '\r' {
        l.drop_last()
    } else {
        l
    }
}

/// The lines of `s`, the current line having begun with `cur`: a line ends at each
/// `'\n'` and loses one `'\r'` before it; a last line without `'\n'` is kept as it is
/// unless it is empty.
pub open spec fn lines_after(s: Seq<char>, cur: Seq<char>) -> Seq<Seq<char>>
    decreases s.len(),
{
    if s.len() == 0 {
        if cur.len() == 0 {
            seq![]
        } else {
            seq![cur]
        }
    } else if s[0] == '\n' {
        seq![strip_cr(cur)] + lines_after(s.drop_first(), seq![])
    } else {
        lines_after(s.drop_first(), cur.push(s[0]))
    }
}

/// The lines of a text, as `str::lines` gives them.
pub open spec fn text_lines(s: Seq<char>) -> Seq<Seq<char>> {
    lines_after(s, seq![])
}

proof fn lemma_lines_step(s: Seq<char>, i: int, cur: Seq<char>)
    requires
        0 <= i < s.len(),
    ensures
        lines_after(s.skip(i), cur) == (if s[i] == '\n' {
            seq![strip_cr(cur)] + lines_after(s.skip(i + 1), seq![])
        } else {
            lines_after(s.skip(i + 1), cur.push(s[i]))
        }),
{
    assert(s.skip(i).drop_first() =~= s.skip(i + 1));
    assert(s.skip(i)[0] == s[i]);
}

// ─── Fields of a CSV line ─────────────────────────────────────────────

/// The index of the first `','` at or after `start`, or the length.
pub open spec fn field_end(s: Seq<char>, start: int) -> int
    decreases s.len() - start,
{
    if start >= s.len() {
        s.len() as int
    } else if s[start] == ',' {
        start
    } else {
        field_end(s, start + 1)
    }
}

proof fn lemma_field_end(s: Seq<char>, start: int, i: int)
    requires
        0 <= start <= i <= s.len(),
        forall|k: int| start <= k < i ==> s[k] != ',',
        i == s.len() || s[i] == ',',
    ensures
        field_end(s, start) == i,
    decreases i - start,
{
    if start < i {
        lemma_field_end(s, start + 1, i);
    }
}

/// The first comma-separated field of a line (`split(',').next()`).
pub open spec fn first_field(line: Seq<char>) -> Seq<char> {
    line.subrange(0, field_end(line, 0))
}

/// The second comma-separated field of a line, if the line has a comma.
pub open spec fn second_field(line: Seq<char>) -> Option<Seq<char>> {
    let e0 = field_end(line, 0);
    if e0 >= line.len() {
        None
    } else {
        Some(line.subrange(e0 + 1, field_end(line, e0 + 1)))
    }
}

/// The sequence without its leading `'"'`s.
pub open spec fn unquote_start(s: Seq<char>) -> Seq<char>
    decreases s.len(),
{
    if s.len() > 0 && s[0] == '"' {
        unquote_start(s.drop_first())
    } else {
        s
    }
}

/// The sequence without its trailing `'"'`s.
pub open spec fn unquote_end(s: Seq<char>) -> Seq<char>
    decreases s.len(),
{
    if s.len() > 0 && s.last() == '"' {
        unquote_end(s.drop_last())
    } else {
        s
    }
}

/// What `str::trim_matches('"')` gives.
pub open spec fn unquoted(s: Seq<char>) -> Seq<char> {
    unquote_end(unquote_start(s))
}

proof fn lemma_unquote_start_at(s: Seq<char>, i: int)
    requires
        0 <= i <= s.len(),
        forall|k: int| 0 <= k < i ==> #[trigger] s[k] == '"',
        i == s.len() || s[i] != '"',
    ensures
        unquote_start(s) == s.subrange(i, s.len() as int),
    decreases i,
{
    if i == 0 {
        assert(s.subrange(0, s.len() as int) =~= s);
    } else {
        let t = s.drop_first();
        assert forall|k: int| 0 <= k < i - 1 implies #[trigger] t[k] == '"' by {
            assert(t[k] == s[k + 1]);
        }
        lemma_unquote_start_at(t, i - 1);
        assert(t.subrange(i - 1, t.len() as int) =~= s.subrange(i, s.len() as int));
    }
}

proof fn lemma_unquote_end_at(s: Seq<char>, j: int)
    requires
        0 <= j <= s.len(),
        forall|k: int| j <= k < s.len() ==> #[trigger] s[k] == '"',
        j == 0 || s[j - 1] != '"',
    ensures
        unquote_end(s) == s.subrange(0, j),
    decreases s.len() - j,
{
    if j == s.len() {
        assert(s.subrange(0, j) =~= s);
    } else {
        let t = s.drop_last();
        assert forall|k: int| j <= k < t.len() implies #[trigger] t[k] == '"' by {
            assert(t[k] == s[k]);
        }
        lemma_unquote_end_at(t, j);
        assert(t.subrange(0, j) =~= s.subrange(0, j));
    }
}

/// `s[start..end]` without its leading and trailing `'"'`s.
fn unquoted_range(s: &Vec<char>, start: usize, end: usize) -> (r: Vec<char>)
    requires
        start <= end <= s@.len(),
    ensures
        r@ == unquoted(s@.subrange(start as int, end as int)),
{
    let ghost f = s@.subrange(start as int, end as int);
    let mut i: usize = start;
    while i < end && s[i] == '"'
        invariant
            start <= i <= end <= s@.len(),
            f == s@.subrange(start as int, end as int),
            forall|k: int| start <= k < i ==> #[trigger] s@[k] == '"',
        decreases end - i,
    {
        i = i + 1;
    }
    proof {
        assert forall|k: int| 0 <= k < i - start implies #[trigger] f[k] == '"' by {
            assert(f[k] == s@[k + start]);
        }
        if i < end {
            assert(f[i - start] == s@[i as int]);
        }
        lemma_unquote_start_at(f, i - start);
    }
    let mut j: usize = end;
    while j > i && s[j - 1] == '"'
        invariant
            start <= i <= j <= end <= s@.len(),
            forall|k: int| j <= k < end ==> #[trigger] s@[k] == '"',
        decreases j,
    {
        j = j - 1;
    }
    let mut r: Vec<char> = Vec::new();
    let mut k: usize = i;
    while k < j
        invariant
            start <= i <= k <= j <= end <= s@.len(),
            r@ == s@.subrange(i as int, k as int),
        decreases j - k,
    {
        r.push(s[k]);
        k = k + 1;
    }
    proof {
        let t = s@.subrange(i as int, end as int);
        assert(f.subrange(i - start, f.len() as int) =~= t);
        assert forall|q: int| (j - i) <= q < t.len() implies #[trigger] t[q] == '"' by {
            assert(t[q] == s@[q + i]);
        }
        if j > i {
            assert(t[j - i - 1] == s@[j - 1]);
        }
        lemma_unquote_end_at(t, j - i);
        assert(t.subrange(0, j - i) =~= s@.subrange(i as int, j as int));
    }
    r
}

/// The index of the first `','` at or after `start` in `s`, or its length.
fn find_field_end(s: &Vec<char>, start: usize) -> (e: usize)
    requires
        start <= s@.len(),
    ensures
        e == field_end(s@, start as int),
        start <= e <= s@.len(),
{
    let n = s.len();
    let mut i: usize = start;
    while i < n && s[i] != ','
        invariant
            n == s@.len(),
            start <= i <= n,
            forall|k: int| start <= k < i ==> s@[k] != ',',
        decreases n - i,
    {
        i = i + 1;
    }
    proof {
        lemma_field_end(s@, start as int, i as int);
    }
    i
}

// ─── Process ids by image name ────────────────────────────────────────

/// The process id that a listing line gives when its image name, lowercased, starts
/// with `prefix` (already lowercased): the second field, unquoted and trimmed, read
/// as a `u32`.
pub open spec fn line_pid(line: Seq<char>, prefix: Seq<char>) -> Option<u32> {
    let image = unquoted(first_field(line));
    if !has_prefix(lower_text(image), prefix) {
        None
    } else {
        match second_field(line) {
            None => None,
            Some(f) => match parse_unsigned(trimmed(unquoted(f)), 0xffff_ffff) {
                Some(v) => Some(v as u32),
                None => None,
            },
        }
    }
}

/// The process ids of the matching lines, in order.
pub open spec fn pids_of(lines: Seq<Seq<char>>, prefix: Seq<char>) -> Seq<u32>
    decreases lines.len(),
{
    if lines.len() == 0 {
        seq![]
    } else {
        pids_of(lines.drop_last(), prefix) + match line_pid(lines.last(), prefix) {
            Some(p) => seq![p],
            None => seq![],
        }
    }
}

/// The process ids that a raw `tasklist` listing gives for an image-name prefix
/// (compared case-insensitively).
pub open spec fn processes_named(listing: Seq<u8>, name_prefix: Seq<char>) -> Seq<u32> {
    pids_of(text_lines(utf8_lossy(listing)), lower_text(name_prefix))
}

proof fn lemma_pids_push(lines: Seq<Seq<char>>, l: Seq<char>, prefix: Seq<char>)
    ensures
        pids_of(lines.push(l), prefix) == pids_of(lines, prefix) + match line_pid(l, prefix) {
            Some(p) => seq![p],
            None => seq![],
        },
{
    assert(lines.push(l).drop_last() =~= lines);
}

fn line_pid_of(line: &Vec<char>, prefix: &Vec<char>) -> (r: Option<u32>)
    ensures
        r == line_pid(line@, prefix@),
{
    let e0 = find_field_end(line, 0);
    let image = unquoted_range(line, 0, e0);
    let image_lower = chars_of(lower(string_of(&image).as_str()).as_str());
    if !chars_starts_with(&image_lower, prefix) {
        return None;
    }
    if e0 >= line.len() {
        return None;
    }
    let e1 = find_field_end(line, e0 + 1);
    let field = unquoted_range(line, e0 + 1, e1);
    let pid_text = trim_chars(&field);
    match parse_unsigned_chars(&pid_text, 0xffff_ffff) {
        Some(v) => {
            proof {
                let ghost t = trimmed(unquoted(line@.subrange(e0 + 1, e1 as int)));
                if t.len() > 0 && t[0] == '+' {
                    assert(all_digits(t.drop_first()));
                }
            }
            Some(v as u32)
        },
        None => None,
    }
}

/// The ids of the processes whose image name starts with `name_prefix`, compared
/// case-insensitively, in the order of `listing` (the raw output of
/// `tasklist /FO CSV /NH`).
pub fn get_processes_by_name(listing: &Vec<u8>, name_prefix: &str) -> (r: Vec<u32>)
    ensures
        r@ == processes_named(listing@, name_prefix@),
{
    let text = decode_lossy(listing);
    let s = chars_of(text.as_str());
    let prefix = chars_of(lower(name_prefix).as_str());
    let n = s.len();
    let mut out: Vec<u32> = Vec::new();
    let mut cur: Vec<char> = Vec::new();
    let ghost mut done: Seq<Seq<char>> = seq![];
    proof {
        assert(s@.skip(0) =~= s@);
        assert(done + lines_after(s@.skip(0), cur@) =~= text_lines(s@));
    }
    let mut i: usize = 0;
    while i < n
        invariant
            n == s@.len(),
            i <= n,
            s@ == utf8_lossy(listing@),
            prefix@ == lower_text(name_prefix@),
            text_lines(s@) == done + lines_after(s@.skip(i as int), cur@),
            out@ == pids_of(done, prefix@),
        decreases n - i,
    {
        let c = s[i];
        proof {
            lemma_lines_step(s@, i as int, cur@);
        }
        if c == '\n' {
            if cur.len() > 0 && cur[cur.len() - 1] == '\r' {
                cur.pop();
            }
            let ghost line = cur@;
            proof {
                lemma_pids_push(done, line, prefix@);
            }
            match line_pid_of(&cur, &prefix) {
                Some(p) => out.push(p),
                None => {},
            }
            proof {
                assert(done + (seq![line] + lines_after(s@.skip(i + 1), seq![])) =~= done.push(line)
                    + lines_after(s@.skip(i + 1), seq![]));
                done = done.push(line);
            }
            cur = Vec::new();
            assert(cur@ =~= Seq::<char>::empty());
        } else {
            cur.push(c);
        }
        i = i + 1;
    }
    proof {
        assert(s@.skip(n as int) =~= Seq::<char>::empty());
    }
    if cur.len() > 0 {
        let ghost line = cur@;
        proof {
            lemma_pids_push(done, line, prefix@);
            assert(done + seq![line] =~= done.push(line));
        }
        match line_pid_of(&cur, &prefix) {
            Some(p) => out.push(p),
            None => {},
        }
    } else {
        assert(done + Seq::<Seq<char>>::empty() =~= done);
    }
    out
}

/// The ids of all Battle.net processes in a listing: the agent's (`Agent*`), then the
/// client's (`Battle.net*`).
pub fn get_battle_net_processes(listing: &Vec<u8>) -> (r: Vec<u32>)
    ensures
        r@ == processes_named(listing@, "Agent"@) + processes_named(listing@, "Battle.net"@),
{
    let mut pids = get_processes_by_name(listing, "Agent");
    let more = get_processes_by_name(listing, "Battle.net");
    let ghost first = pids@;
    let mut i: usize = 0;
    while i < more.len()
        invariant
            i <= more@.len(),
            pids@ == first + more@.subrange(0, i as int),
        decreases more.len() - i,
    {
        pids.push(more[i]);
        i = i + 1;
    }
    assert(more@.subrange(0, more@.len() as int) =~= more@);
    pids
}

/// The ids of the Battle.net client processes (`Battle.net*`) in a listing.
pub fn get_battle_net_client_processes(listing: &Vec<u8>) -> (r: Vec<u32>)
    ensures
        r@ == processes_named(listing@, "Battle.net"@),
{
    get_processes_by_name(listing, "Battle.net")
}

/// Whether a listing shows a Battle.net client process.
pub fn is_battle_net_client_running(listing: &Vec<u8>) -> (r: bool)
    ensures
        r == (processes_named(listing@, "Battle.net"@).len() > 0),
{
    get_battle_net_client_processes(listing).len() > 0
}

/// Whether a listing shows any Battle.net process: the agent's (`Agent*`) or the
/// client's (`Battle.net*`). The wait for Battle.net to exit is fed this.
pub fn is_any_battle_net_process_running(listing: &Vec<u8>) -> (r: bool)
    ensures
        r == (processes_named(listing@, "Agent"@).len() + processes_named(listing@, "Battle.net"@).len()
            > 0),
{
    get_battle_net_processes(listing).len() > 0
}

// ─── Waiting for Battle.net to exit ───────────────────────────────────

/// What to do after one look at the process list.
#[derive(Clone, Copy, Debug, PartialEq, Eq, Structural)]
pub enum ExitStep {
    /// The deadline has passed: give up.
    TimedOut,
    /// No Battle.net process has been seen for the stable delay: done.
    Exited,
    /// No Battle.net process is running, but not yet for long enough: look again later.
    Wait,
    /// A Battle.net process is running: ask it to close, then look again later.
    RequestCloseAndWait,
}

/// The state of a wait for every Battle.net process to exit. Times are milliseconds on one
/// monotonic clock.
pub struct ExitWatch {
    pub deadline: u64,
    pub stable_delay: u64,
    /// Since when no Battle.net process has been seen, if none is now running.
    pub empty_since: Option<u64>,
}

/// `Instant::duration_since`: the time from `since` to `now`, or zero when `since` is later.
pub open spec fn elapsed(now: u64, since: u64) -> int {
    if now >= since {
        now - since
    } else {
        0
    }
}

impl ExitWatch {
    /// Starts a wait at `now` that gives up after `timeout` and is satisfied by
    /// `stable_delay` without any Battle.net process.
    pub fn start(now: u64, stable_delay: u64, timeout: u64) -> (w: ExitWatch)
        requires
            now + timeout <= u64::MAX,
        ensures
            w.deadline == now + timeout,
            w.stable_delay == stable_delay,
            w.empty_since is None,
    {
        ExitWatch { deadline: now + timeout, stable_delay, empty_since: None }
    }

    /// One look at the process list at time `now`: `battle_net_running` says whether
    /// it shows any Battle.net process (`is_any_battle_net_process_running`).
    pub fn step(&mut self, now: u64, battle_net_running: bool) -> (r: ExitStep)
        ensures
            final(self).deadline == old(self).deadline,
            final(self).stable_delay == old(self).stable_delay,
            now >= old(self).deadline ==> r == ExitStep::TimedOut && *final(self) == *old(self),
            now < old(self).deadline && battle_net_running ==> r == ExitStep::RequestCloseAndWait
                && final(self).empty_since is None,
            now < old(self).deadline && !battle_net_running ==> ({
                let since = match old(self).empty_since {
                    Some(t) => t,
                    None => now,
                };
                &&& final(self).empty_since == Some(since)
                &&& r == (if elapsed(now, since) >= old(self).stable_delay {
                    ExitStep::Exited
                } else {
                    ExitStep::Wait
                })
            }),
    {
        if now >= self.deadline {
            return ExitStep::TimedOut;
        }
        if !battle_net_running {
            let since = match self.empty_since {
                Some(t) => t,
                None => now,
            };
            self.empty_since = Some(since);
            let waited: u64 = if now >= since {
                now - since
            } else {
                0
            };
            if waited >= self.stable_delay {
                ExitStep::Exited
            } else {
                ExitStep::Wait
            }
        } else {
            self.empty_since = None;
            ExitStep::RequestCloseAndWait
        }
    }
}

// ─── The client's executable ──────────────────────────────────────────

/// Where the client is installed by default.
pub const DEFAULT_BATTLE_NET_EXE: &'static str = "C:\\Program Files (x86)\\Battle.net\\Battle.net.exe";

/// The executable inside an installation directory: `{dir}\Battle.net.exe`.
pub fn battle_net_exe_in(install_dir: &str) -> (r: String)
    ensures
        r@ == install_dir@ + "\\Battle.net.exe"@,
{
    concat_str(install_dir, "\\Battle.net.exe")
}

/// The client's executable: the default one when it exists, else the one in the
/// installation directory from the registry (`install_path`) when that exists
/// (`installed_exe_exists` says whether `battle_net_exe_in` of it exists).
pub fn find_battle_net_exe(
    default_exists: bool,
    install_path: &Option<String>,
    installed_exe_exists: bool,
) -> (r: Option<String>)
    ensures
        default_exists ==> (r matches Some(p) && p@ == DEFAULT_BATTLE_NET_EXE@),
        !default_exists ==> match install_path {
            Some(dir) => if installed_exe_exists {
                (r matches Some(p) && p@ == dir@ + "\\Battle.net.exe"@)
            } else {
                r is None
            },
            None => r is None,
        },
{
    if default_exists {
        return Some(String::from_str(DEFAULT_BATTLE_NET_EXE));
    }
    match install_path {
        Some(dir) => {
            if installed_exe_exists {
                Some(battle_net_exe_in(dir.as_str()))
            } else {
                None
            }
        },
        None => None,
    }
}

} // verus!
