use vstd::prelude::*;

use crate::text::{
    chars_of, contains, fields, has_substring, join_from, join_with, parse_i64, parse_i64_spec, parse_u64,
    parse_u64_spec, segments, split_fields, split_on, string_of, views,
};
use crate::FileKind;

verus! {

/// One filesystem object as a remote listing or stat command reports it.
#[derive(Clone, Debug)]
pub struct FileInfo {
    pub name: String,
    pub path: String,
    pub size: u64,
    pub kind: FileKind,
    pub modified_time: Option<i64>,
    pub permissions: Option<String>,
}

pub struct InfoView {
    pub name: Seq<char>,
    pub path: Seq<char>,
    pub size: u64,
    pub kind: FileKind,
    pub modified_time: Option<i64>,
    pub permissions: Option<Seq<char>>,
}

pub open spec fn opt_str_view(o: Option<String>) -> Option<Seq<char>> {
    match o {
        Some(s) => Some(s@),
        None => None,
    }
}

impl View for FileInfo {
    type V = InfoView;

    open spec fn view(&self) -> InfoView {
        InfoView {
            name: self.name@,
            path: self.path@,
            size: self.size,
            kind: self.kind,
            modified_time: self.modified_time,
            permissions: opt_str_view(self.permissions),
        }
    }
}

impl FileInfo {
    pub fn is_directory(&self) -> (r: bool)
        ensures
            r == (self.kind == FileKind::Directory),
    {
        self.kind == FileKind::Directory
    }

    pub fn is_symlink(&self) -> (r: bool)
        ensures
            r == (self.kind == FileKind::Symlink),
    {
        self.kind == FileKind::Symlink
    }
}

/// Errors of the strict stat parser.
#[derive(Clone, Copy, Debug, PartialEq, Eq, Structural)]
pub enum FormatError {
    /// The text does not have exactly four `|`-separated fields.
    FieldCount,
    /// The size field is not an unsigned 64-bit decimal.
    Size,
    /// The modification time field is not a signed 64-bit decimal.
    ModifiedTime,
}

/// The kind that a listing's permission string announces by its first character.
pub open spec fn kind_of_permissions(p: Seq<char>) -> FileKind {
    if p.len() > 0 && p[0] == 'd' {
        FileKind::Directory
    } else if p.len() > 0 && p[0] == 'l' {
        FileKind::Symlink
    } else {
        FileKind::RegularFile
    }
}

pub open spec fn is_dot_name(name: Seq<char>) -> bool {
    name == seq!['.'] || name == seq!['.', '.']
}

/// The entry that one listing line describes, if any: at least nine fields, the name
/// being the fields from the ninth on joined by single spaces, and not `.` or `..`.
/// An unreadable size counts as zero.
pub open spec fn ls_entry(line: Seq<char>) -> Option<InfoView> {
    let p = fields(line);
    if p.len() < 9 {
        None
    } else {
        let name = join_with(p.subrange(8, p.len() as int), ' ');
        if is_dot_name(name) {
            None
        } else {
            Some(
                InfoView {
                    name: name,
                    path: name,
                    size: match parse_u64_spec(p[4]) {
                        Some(n) => n,
                        None => 0,
                    },
                    kind: kind_of_permissions(p[0]),
                    modified_time: None,
                    permissions: Some(p[0]),
                },
            )
        }
    }
}

/// The entries of the lines that describe one, in order.
pub open spec fn ls_entries(lines: Seq<Seq<char>>) -> Seq<InfoView>
    decreases lines.len(),
{
    if lines.len() == 0 {
        Seq::empty()
    } else {
        let r = ls_entries(lines.drop_last());
        match ls_entry(lines.last()) {
            Some(e) => r.push(e),
            None => r,
        }
    }
}

/// The entries of a whole listing text.
pub open spec fn ls_listing(text: Seq<char>) -> Seq<InfoView> {
    ls_entries(segments(text, '\n'))
}

pub open spec fn info_views(v: Seq<FileInfo>) -> Seq<InfoView> {
    v.map_values(|i: FileInfo| i@)
}

pub open spec fn directory_word() -> Seq<char> {
    seq!['d', 'i', 'r', 'e', 'c', 't', 'o', 'r', 'y']
}

pub open spec fn symlink_words() -> Seq<char> {
    seq!['s', 'y', 'm', 'b', 'o', 'l', 'i', 'c', ' ', 'l', 'i', 'n', 'k']
}

/// The kind that a stat file-type description names.
pub open spec fn kind_of_type(t: Seq<char>) -> FileKind {
    if contains(t, directory_word()) {
        FileKind::Directory
    } else if contains(t, symlink_words()) {
        FileKind::Symlink
    } else {
        FileKind::RegularFile
    }
}

/// What the stat parser makes of `type|size|mtime|name`.
pub open spec fn stat_entry(text: Seq<char>) -> Result<InfoView, FormatError> {
    let p = segments(text, '|');
    if p.len() != 4 {
        Err(FormatError::FieldCount)
    } else {
        match parse_u64_spec(p[1]) {
            None => Err(FormatError::Size),
            Some(size) => match parse_i64_spec(p[2]) {
                None => Err(FormatError::ModifiedTime),
                Some(t) => Ok(
                    InfoView {
                        name: p[3],
                        path: p[3],
                        size: size,
                        kind: kind_of_type(p[0]),
                        modified_time: Some(t),
                        permissions: None,
                    },
                ),
            },
        }
    }
}

pub(crate) fn entry_of_line(line: &Vec<char>) -> (r: Option<FileInfo>)
    ensures
        match r {
            Some(i) => ls_entry(line@) == Some(i@),
            None => ls_entry(line@) is None,
        },
{
    let parts = split_fields(line);
    let ghost p = fields(line@);
    assert(views(parts@) == p);
    if parts.len() < 9 {
        return None;
    }
    assert(p[0] == parts@[0]@ && p[4] == parts@[4]@);
    let name_chars = join_from(&parts, 8, ' ');
    assert(views(parts@).subrange(8, parts.len() as int) == p.subrange(8, p.len() as int));
    let n = name_chars.len();
    if (n == 1 && name_chars[0] == '.') || (n == 2 && name_chars[0] == '.' && name_chars[1]
        == '.') {
        if n == 1 {
            assert(name_chars@ =~= seq!['.']);
        } else {
            assert(name_chars@ =~= seq!['.', '.']);
        }
        return None;
    }
    assert(!is_dot_name(name_chars@)) by {
        if name_chars@ == seq!['.'] {
            assert(name_chars@[0] == '.');
        }
        if name_chars@ == seq!['.', '.'] {
            assert(name_chars@[0] == '.' && name_chars@[1] == '.');
        }
    }
    let perm = &parts[0];
    let kind = if perm.len() > 0 && perm[0] == 'd' {
        FileKind::Directory
    } else if perm.len() > 0 && perm[0] == 'l' {
        FileKind::Symlink
    } else {
        FileKind::RegularFile
    };
    let size = match parse_u64(&parts[4]) {
        Some(v) => v,
        None => 0,
    };
    let name = string_of(&name_chars);
    let path = string_of(&name_chars);
    let info = FileInfo {
        name,
        path,
        size,
        kind,
        modified_time: None,
        permissions: Some(string_of(perm)),
    };
    Some(info)
}

/// Parses one line of a detailed directory listing (`ls -l` style).
pub fn parse_ls_line(line: &str) -> (r: Option<FileInfo>)
    ensures
        match r {
            Some(i) => ls_entry(line@) == Some(i@),
            None => ls_entry(line@) is None,
        },
{
    let cs = chars_of(line);
    entry_of_line(&cs)
}

/// Parses a whole detailed listing, one entry per line that describes one; lines that
/// do not are passed over.
pub fn parse_ls_output(output: &str) -> (r: Vec<FileInfo>)
    ensures
        info_views(r@) == ls_listing(output@),
{
    let cs = chars_of(output);
    let lines = split_on(&cs, '\n');
    let ghost ls = segments(output@, '\n');
    let mut files: Vec<FileInfo> = Vec::new();
    let mut i: usize = 0;
    while i < lines.len()
        invariant
            i <= lines.len(),
            views(lines@) == ls,
            info_views(files@) == ls_entries(ls.subrange(0, i as int)),
        decreases lines.len() - i,
    {
        let e = entry_of_line(&lines[i]);
        let ghost t = ls.subrange(0, i as int + 1);
        proof {
            assert(t.drop_last() == ls.subrange(0, i as int));
            assert(t.last() == lines@[i as int]@);
        }
        let ghost f0 = info_views(files@);
        match e {
            Some(info) => {
                files.push(info);
                assert(info_views(files@) =~= f0.push(info@));
            },
            None => {},
        }
        i += 1;
    }
    assert(ls.subrange(0, lines.len() as int) == ls);
    files
}

/// Parses the strict stat format `type|size|mtime|name`.
pub fn parse_stat_output(output: &str) -> (r: Result<FileInfo, FormatError>)
    ensures
        match r {
            Ok(i) => stat_entry(output@) == Ok::<InfoView, FormatError>(i@),
            Err(e) => stat_entry(output@) == Err::<InfoView, FormatError>(e),
        },
{
    let cs = chars_of(output);
    let parts = split_on(&cs, '|');
    let ghost p = segments(output@, '|');
    if parts.len() != 4 {
        return Err(FormatError::FieldCount);
    }
    assert(p[0] == parts@[0]@ && p[1] == parts@[1]@ && p[2] == parts@[2]@ && p[3]
        == parts@[3]@);
    let size = match parse_u64(&parts[1]) {
        Some(v) => v,
        None => {
            return Err(FormatError::Size);
        },
    };
    let mtime = match parse_i64(&parts[2]) {
        Some(v) => v,
        None => {
            return Err(FormatError::ModifiedTime);
        },
    };
    let dir_word = vec!['d', 'i', 'r', 'e', 'c', 't', 'o', 'r', 'y'];
    let link_words = vec!['s', 'y', 'm', 'b', 'o', 'l', 'i', 'c', ' ', 'l', 'i', 'n', 'k'];
    assert(dir_word@ == directory_word());
    assert(link_words@ == symlink_words());
    let kind = if has_substring(&parts[0], &dir_word) {
        FileKind::Directory
    } else if has_substring(&parts[0], &link_words) {
        FileKind::Symlink
    } else {
        FileKind::RegularFile
    };
    Ok(
        FileInfo {
            name: string_of(&parts[3]),
            path: string_of(&parts[3]),
            size,
            kind,
            modified_time: Some(mtime),
            permissions: None,
        },
    )
}

} // verus!
