//! The decisions of the beacon: the build-script side that announces a
//! project to the registry. Everything here is fail-silent and local: the
//! only output is one registry line, `{"v":1,"root":…,"ts":…}`.

use vstd::prelude::*;
use vstd::string::StringExecFns;
use crate::text::string_of;

verus! {

/// The lowercase hexadecimal digit of `d`.
pub open spec fn hex_digit(d: int) -> char {
    if d < 10 {
        ((48 + d) as u8) as char
    } else {
        ((87 + d) as u8) as char
    }
}

/// One character as a JSON string writes it: backslash and quote escaped,
/// control characters as `\u00XX`, everything else as itself.
pub open spec fn escape_char(c: char) -> Seq<char> {
    if c == '\\' {
        seq!['\\', '\\']
    } else if c == '"' {
        seq!['\\', '"']
    } else if (c as u32) < 0x20 {
        seq!['\\', 'u', '0', '0', hex_digit((c as int) / 16), hex_digit((c as int) % 16)]
    } else {
        seq![c]
    }
}

/// `s` as the inside of a JSON string.
pub open spec fn json_escaped(s: Seq<char>) -> Seq<char>
    decreases s.len(),
{
    if s.len() == 0 {
        Seq::empty()
    } else {
        json_escaped(s.drop_last()) + escape_char(s.last())
    }
}

/// The decimal digits of `n`.
pub open spec fn decimal(n: nat) -> Seq<char>
    decreases n,
{
    if n < 10 {
        seq![((48 + n) as u8) as char]
    } else {
        decimal(n / 10).push(((48 + n % 10) as u8) as char)
    }
}

fn push_hex(out: &mut Vec<char>, d: u32)
    requires
        d < 16,
    ensures
        final(out)@ == old(out)@.push(hex_digit(d as int)),
{
    let c = if d < 10 {
        ((48 + d) as u8) as char
    } else {
        ((87 + d) as u8) as char
    };
    out.push(c);
}

fn push_escaped(out: &mut Vec<char>, c: char)
    ensures
        final(out)@ == old(out)@ + escape_char(c),
{
    let ghost start = out@;
    if c == '\\' {
        out.push('\\');
        out.push('\\');
    } else if c == '"' {
        out.push('\\');
        out.push('"');
    } else if (c as u32) < 0x20 {
        let n = c as u32;
        out.push('\\');
        out.push('u');
        out.push('0');
        out.push('0');
        push_hex(out, n / 16);
        push_hex(out, n % 16);
    } else {
        out.push(c);
    }
    assert(out@ =~= start + escape_char(c));
}

fn push_decimal(out: &mut Vec<char>, n: u64)
    ensures
        final(out)@ == old(out)@ + decimal(n as nat),
    decreases n,
{
    let ghost start = out@;
    if n >= 10 {
        push_decimal(out, n / 10);
    }
    let d = (n % 10) as u8;
    out.push((48 + d) as char);
    assert(out@ =~= start + decimal(n as nat));
}

/// `s` escaped for the inside of a JSON string.
pub fn json_escape(s: &str) -> (r: String)
    ensures
        r@ == json_escaped(s@),
{
    let mut out: Vec<char> = Vec::new();
    for c in it: s.chars()
        invariant
            out@ == json_escaped(it.seq().take(it.index() as int)),
            it.seq() == s@,
    {
        proof {
            assert(it.seq().take(it.index() + 1).drop_last() =~= it.seq().take(it.index() as int));
        }
        push_escaped(&mut out, c);
    }
    assert(s@.take(s@.len() as int) =~= s@);
    string_of(&out)
}

/// One registry line announcing `root` at `ts` seconds since the Unix epoch.
pub open spec fn registry_line_text(root: Seq<char>, ts: nat) -> Seq<char> {
    "{\"v\":1,\"root\":\""@ + json_escaped(root) + "\",\"ts\":"@ + decimal(ts) + "}"@
}

/// One registry line, in the schema the engine reads back
/// (`{"v":1,"root":…,"ts":…}`).
pub fn registry_line(root: &str, ts: u64) -> (r: String)
    ensures
        r@ == registry_line_text(root@, ts as nat),
{
    let mut digits: Vec<char> = Vec::new();
    push_decimal(&mut digits, ts);
    let mut line = String::from_str("{\"v\":1,\"root\":\"");
    line.append(json_escape(root).as_str());
    line.append("\",\"ts\":");
    line.append(string_of(&digits).as_str());
    line.append("}");
    line
}

/// The beacon must be a hard no-op: under docs.rs (`DOCS_RS` set), on
/// explicit opt-out (`TARGONE_DISABLE` is `1`), or in CI (`CI` set).
pub fn beacon_disabled(docs_rs_set: bool, targone_disable: Option<&str>, ci_set: bool) -> (b: bool)
    ensures
        b == (docs_rs_set || (targone_disable matches Some(v) && v@ == "1"@) || ci_set),
{
    let opted_out = match targone_disable {
        Some(v) => crate::text::str_eq(v, "1"),
        None => false,
    };
    docs_rs_set || opted_out || ci_set
}

/// Seconds in a day: the engine-missing hint fires at most this often.
pub const HINT_INTERVAL_SECS: u64 = 86400;

/// Should the engine-missing hint fire at `now` (seconds since the epoch),
/// given the stamp's modification time (`None` when it cannot be read)?
pub fn hint_due(stamp_secs: Option<u64>, now_secs: u64) -> (b: bool)
    ensures
        b == match stamp_secs {
            Some(s) => now_secs - s > HINT_INTERVAL_SECS,
            None => true,
        },
{
    match stamp_secs {
        Some(s) => now_secs.saturating_sub(s) > HINT_INTERVAL_SECS,
        None => true,
    }
}

/// Where `$CARGO_HOME` comes from.
#[derive(Debug, Clone, Copy, PartialEq, Eq, Structural)]
pub enum HomeSource {
    /// `CARGO_HOME` itself.
    CargoHome,
    /// `USERPROFILE`, joined with `.cargo`.
    UserProfile,
    /// `HOME`, joined with `.cargo`.
    Home,
    /// The current directory, joined with `.cargo`.
    CurrentDir,
}

/// `$CARGO_HOME` resolution: `CARGO_HOME` when set, else `.cargo` under
/// `USERPROFILE`, else under `HOME`, else under the current directory.
pub fn cargo_home_source(cargo_home_set: bool, userprofile_set: bool, home_set: bool) -> (s: HomeSource)
    ensures
        s == if cargo_home_set {
            HomeSource::CargoHome
        } else if userprofile_set {
            HomeSource::UserProfile
        } else if home_set {
            HomeSource::Home
        } else {
            HomeSource::CurrentDir
        },
{
    if cargo_home_set {
        HomeSource::CargoHome
    } else if userprofile_set {
        HomeSource::UserProfile
    } else if home_set {
        HomeSource::Home
    } else {
        HomeSource::CurrentDir
    }
}

} // verus!
