use vstd::prelude::*;

use crate::listing::{
    info_views, ls_listing, parse_ls_output, parse_stat_output, stat_entry, FileInfo, FormatError,
    InfoView,
};
use crate::text::{chars_of, string_of};

verus! {

/// `s` with each single quote written as `'"'"'`, so that it can stand inside single quotes.
pub open spec fn escape_quotes(s: Seq<char>) -> Seq<char>
    decreases s.len(),
{
    if s.len() == 0 {
        Seq::empty()
    } else {
        escape_quotes(s.drop_last()) + if s.last() == '\'' {
            seq!['\'', '"', '\'', '"', '\'']
        } else {
            seq![s.last()]
        }
    }
}

/// `s` as one single-quoted shell word.
pub open spec fn shell_quoted(s: Seq<char>) -> Seq<char> {
    seq!['\''] + escape_quotes(s) + seq!['\'']
}

fn push_all(out: &mut Vec<char>, s: &Vec<char>)
    ensures
        final(out)@ == old(out)@ + s@,
{
    let mut i: usize = 0;
    while i < s.len()
        invariant
            i <= s.len(),
            out@ == old(out)@ + s@.subrange(0, i as int),
        decreases s.len() - i,
    {
        out.push(s[i]);
        i += 1;
        assert(out@ =~= old(out)@ + s@.subrange(0, i as int));
    }
    assert(s@.subrange(0, s.len() as int) == s@);
}

fn push_quoted(out: &mut Vec<char>, s: &str)
    ensures
        final(out)@ == old(out)@ + shell_quoted(s@),
{
    let cs = chars_of(s);
    let ghost start = out@;
    out.push('\'');
    let mut i: usize = 0;
    while i < cs.len()
        invariant
            i <= cs.len(),
            cs@ == s@,
            out@ == start + seq!['\''] + escape_quotes(cs@.subrange(0, i as int)),
        decreases cs.len() - i,
    {
        let c = cs[i];
        let ghost t = cs@.subrange(0, i as int + 1);
        assert(t.drop_last() == cs@.subrange(0, i as int));
        assert(t.last() == c);
        if c == '\'' {
            out.push('\'');
            out.push('"');
            out.push('\'');
            out.push('"');
            out.push('\'');
        } else {
            out.push(c);
        }
        i += 1;
        assert(out@ =~= start + seq!['\''] + escape_quotes(t));
    }
    out.push('\'');
    assert(cs@.subrange(0, cs.len() as int) == cs@);
    assert(out@ =~= start + shell_quoted(s@));
}

pub open spec fn list_prefix() -> Seq<char> {
    seq!['l', 's', ' ', '-', 'l', 'A', ' ']
}

pub open spec fn stat_prefix() -> Seq<char> {
    seq![
        's', 't', 'a', 't', ' ', '-', 'c', ' ', '\'', '%', 'F', '|', '%', 's', '|', '%', 'Y',
        '|', '%', 'n', '\'', ' ',
    ]
}

pub open spec fn rsync_prefix() -> Seq<char> {
    seq![
        'r', 's', 'y', 'n', 'c', ' ', '-', 'a', 'v', 'u', 'n', ' ', '-', '-', 'i', 't', 'e',
        'm', 'i', 'z', 'e', '-', 'c', 'h', 'a', 'n', 'g', 'e', 's', ' ',
    ]
}

/// The detailed-listing command for the directory `path`.
pub fn list_command(path: &str) -> (r: String)
    ensures
        r@ == list_prefix() + shell_quoted(path@),
{
    let mut out = vec!['l', 's', ' ', '-', 'l', 'A', ' '];
    assert(out@ == list_prefix());
    push_quoted(&mut out, path);
    string_of(&out)
}

/// The stat command that prints `type|size|mtime|name` for `path`.
pub fn stat_command(path: &str) -> (r: String)
    ensures
        r@ == stat_prefix() + shell_quoted(path@),
{
    let mut out = vec![
        's', 't', 'a', 't', ' ', '-', 'c', ' ', '\'', '%', 'F', '|', '%', 's', '|', '%', 'Y',
        '|', '%', 'n', '\'', ' ',
    ];
    assert(out@ == stat_prefix());
    push_quoted(&mut out, path);
    string_of(&out)
}

/// The rsync dry-run command that itemizes what copying `source` to `dest` would change.
pub fn rsync_dry_run_command(source: &str, dest: &str) -> (r: String)
    ensures
        r@ == rsync_prefix() + shell_quoted(source@) + seq![' '] + shell_quoted(dest@),
{
    let mut out = vec![
        'r', 's', 'y', 'n', 'c', ' ', '-', 'a', 'v', 'u', 'n', ' ', '-', '-', 'i', 't', 'e',
        'm', 'i', 'z', 'e', '-', 'c', 'h', 'a', 'n', 'g', 'e', 's', ' ',
    ];
    assert(out@ == rsync_prefix());
    push_quoted(&mut out, source);
    out.push(' ');
    push_quoted(&mut out, dest);
    string_of(&out)
}

/// Why a remote command's result could not be used.
#[derive(Debug)]
pub enum RemoteError {
    /// The command exited with a non-zero status; its standard error is kept.
    CommandFailed { exit_code: i32, stderr: String },
    /// The stat output did not have the expected format.
    Format(FormatError),
}

/// The entries of a listing command's output, or its failure.
pub fn listing_result(stdout: &str, stderr: String, exit_code: i32) -> (r: Result<
    Vec<FileInfo>,
    RemoteError,
>)
    ensures
        exit_code != 0 <==> r is Err,
        match r {
            Ok(v) => info_views(v@) == ls_listing(stdout@),
            Err(RemoteError::CommandFailed { exit_code: c, stderr: e }) => c == exit_code && e@
                == stderr@,
            Err(RemoteError::Format(_)) => false,
        },
{
    if exit_code != 0 {
        return Err(RemoteError::CommandFailed { exit_code, stderr });
    }
    Ok(parse_ls_output(stdout))
}

/// The entry of a stat command's output, or why there is none.
pub fn stat_result(stdout: &str, stderr: String, exit_code: i32) -> (r: Result<
    FileInfo,
    RemoteError,
>)
    ensures
        match r {
            Ok(i) => exit_code == 0 && stat_entry(stdout@) == Ok::<InfoView, FormatError>(i@),
            Err(RemoteError::CommandFailed { exit_code: c, stderr: e }) => exit_code != 0 && c
                == exit_code && e@ == stderr@,
            Err(RemoteError::Format(f)) => exit_code == 0 && stat_entry(stdout@) == Err::<
                InfoView,
                FormatError,
            >(f),
        },
{
    if exit_code != 0 {
        return Err(RemoteError::CommandFailed { exit_code, stderr });
    }
    match parse_stat_output(stdout) {
        Ok(i) => Ok(i),
        Err(f) => Err(RemoteError::Format(f)),
    }
}

/// The output of an rsync dry run, or its failure.
pub fn dry_run_result(stdout: String, stderr: String, exit_code: i32) -> (r: Result<
    String,
    RemoteError,
>)
    ensures
        match r {
            Ok(s) => exit_code == 0 && s@ == stdout@,
            Err(RemoteError::CommandFailed { exit_code: c, stderr: e }) => exit_code != 0 && c
                == exit_code && e@ == stderr@,
            Err(RemoteError::Format(_)) => false,
        },
{
    if exit_code != 0 {
        return Err(RemoteError::CommandFailed { exit_code, stderr });
    }
    Ok(stdout)
}

/// Whether a `which` probe found the program: it exits with status zero.
pub fn program_found(exit_code: i32) -> (r: bool)
    ensures
        r == (exit_code == 0),
{
    exit_code == 0
}

/// The session timeout in milliseconds for a timeout in seconds, where it fits in 32 bits.
pub fn timeout_millis(secs: u32) -> (r: Option<u32>)
    ensures
        r == (if secs as int * 1000 <= u32::MAX {
            Some((secs as int * 1000) as u32)
        } else {
            None::<u32>
        }),
{
    secs.checked_mul(1000)
}

} // verus!
