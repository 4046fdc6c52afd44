use vstd::prelude::*;

use crate::listing::{entry_of_line, ls_entries, ls_listing, opt_str_view, FileInfo, InfoView};
use crate::text::{chars_of, join_from, join_with, segments, split_on, string_of, views};
use crate::FileKind;

verus! {

/// One entry of an inventory, keyed by its path relative to the inventory's root.
#[derive(Debug)]
pub struct FileMeta {
    pub path: String,
    pub size: u64,
    pub kind: FileKind,
    pub modified_time: Option<i64>,
    pub permissions: Option<String>,
    pub md5: Option<String>,
}

pub struct MetaView {
    pub path: Seq<char>,
    pub size: u64,
    pub kind: FileKind,
    pub modified_time: Option<i64>,
    pub permissions: Option<Seq<char>>,
    pub md5: Option<Seq<char>>,
}

impl View for FileMeta {
    type V = MetaView;

    open spec fn view(&self) -> MetaView {
        MetaView {
            path: self.path@,
            size: self.size,
            kind: self.kind,
            modified_time: self.modified_time,
            permissions: opt_str_view(self.permissions),
            md5: opt_str_view(self.md5),
        }
    }
}

pub open spec fn meta_views(v: Seq<FileMeta>) -> Seq<MetaView> {
    v.map_values(|m: FileMeta| m@)
}

/// The inventory entry that a parsed remote record stands for; no digest is computed.
pub open spec fn meta_of_info(i: InfoView) -> MetaView {
    MetaView {
        path: i.path,
        size: i.size,
        kind: i.kind,
        modified_time: i.modified_time,
        permissions: i.permissions,
        md5: None,
    }
}

/// The sum of the sizes of the entries.
pub open spec fn sum_sizes(s: Seq<MetaView>) -> nat
    decreases s.len(),
{
    if s.len() == 0 {
        0
    } else {
        sum_sizes(s.drop_last()) + s.last().size as nat
    }
}

/// The kind that a walked entry's file type announces; a symlink is never followed.
pub open spec fn kind_of_file_type(is_symlink: bool, is_dir: bool, is_file: bool) -> FileKind {
    if is_symlink {
        FileKind::Symlink
    } else if is_dir {
        FileKind::Directory
    } else if is_file {
        FileKind::RegularFile
    } else {
        FileKind::Other
    }
}

pub open spec fn str_views(v: Seq<String>) -> Seq<Seq<char>> {
    v.map_values(|s: String| s@)
}

/// The inventory entry of a walked filesystem object: its path segments below the root
/// joined with `/`, its kind, and its own size (zero for a directory).
pub open spec fn walk_entry(
    segs: Seq<Seq<char>>,
    is_symlink: bool,
    is_dir: bool,
    is_file: bool,
    len: u64,
    modified_time: Option<i64>,
) -> MetaView {
    let kind = kind_of_file_type(is_symlink, is_dir, is_file);
    MetaView {
        path: join_with(segs, '/'),
        size: if kind == FileKind::Directory {
            0
        } else {
            len
        },
        kind: kind,
        modified_time: modified_time,
        permissions: None,
        md5: None,
    }
}

impl FileMeta {
    /// The inventory entry of an object found by a directory walk, from the segments of
    /// its path relative to the root, its file type, its metadata length and its
    /// modification time.
    pub fn from_walk_entry(
        segments: &Vec<String>,
        is_symlink: bool,
        is_dir: bool,
        is_file: bool,
        len: u64,
        modified_time: Option<i64>,
    ) -> (r: FileMeta)
        ensures
            r@ == walk_entry(str_views(segments@), is_symlink, is_dir, is_file, len, modified_time),
    {
        let mut segs: Vec<Vec<char>> = Vec::new();
        let mut i: usize = 0;
        while i < segments.len()
            invariant
                i <= segments.len(),
                views(segs@) == str_views(segments@).subrange(0, i as int),
            decreases segments.len() - i,
        {
            let ghost s0 = views(segs@);
            let c = chars_of(segments[i].as_str());
            let ghost cv = c@;
            assert(cv == str_views(segments@)[i as int]);
            segs.push(c);
            assert(views(segs@) =~= s0.push(cv));
            i += 1;
            assert(views(segs@) =~= str_views(segments@).subrange(0, i as int));
        }
        assert(views(segs@) =~= str_views(segments@));
        let joined = join_from(&segs, 0, '/');
        assert(views(segs@).subrange(0, segs.len() as int) == views(segs@));
        let kind = if is_symlink {
            FileKind::Symlink
        } else if is_dir {
            FileKind::Directory
        } else if is_file {
            FileKind::RegularFile
        } else {
            FileKind::Other
        };
        let size = if is_dir && !is_symlink {
            0
        } else {
            len
        };
        FileMeta {
            path: string_of(&joined),
            size,
            kind,
            modified_time,
            permissions: None,
            md5: None,
        }
    }

    /// The inventory entry for a parsed remote record.
    pub fn from_info(info: FileInfo) -> (r: FileMeta)
        ensures
            r@ == meta_of_info(info@),
    {
        FileMeta {
            path: info.path,
            size: info.size,
            kind: info.kind,
            modified_time: info.modified_time,
            permissions: info.permissions,
            md5: None,
        }
    }
}

/// An inventory: the entries of one side, with the sum of their sizes.
#[derive(Debug)]
pub struct FileList {
    pub files: Vec<FileMeta>,
    pub total_size: u128,
}

impl FileList {
    /// The total is the sum of the entries' sizes.
    pub open spec fn wf(&self) -> bool {
        self.total_size == sum_sizes(meta_views(self.files@))
    }

    pub open spec fn entries(&self) -> Seq<MetaView> {
        meta_views(self.files@)
    }

    /// An inventory of exactly these entries, in this order.
    pub fn new(files: Vec<FileMeta>) -> (r: FileList)
        ensures
            r.wf(),
            r.entries() == meta_views(files@),
    {
        let mut total: u128 = 0;
        let mut i: usize = 0;
        while i < files.len()
            invariant
                i <= files.len(),
                total == sum_sizes(meta_views(files@).subrange(0, i as int)),
                total <= i as nat * 0xFFFF_FFFF_FFFF_FFFFnat,
            decreases files.len() - i,
        {
            let ghost t = meta_views(files@).subrange(0, i as int + 1);
            assert(t.drop_last() == meta_views(files@).subrange(0, i as int));
            assert(t.last() == files@[i as int]@);
            let ghost ii = i as nat;
            assert((ii + 1) * 0xFFFF_FFFF_FFFF_FFFFnat <= 0x1_0000_0000_0000_0000nat
                * 0xFFFF_FFFF_FFFF_FFFFnat) by (nonlinear_arith)
                requires
                    ii < 0x1_0000_0000_0000_0000nat,
            ;
            assert(ii * 0xFFFF_FFFF_FFFF_FFFFnat + 0xFFFF_FFFF_FFFF_FFFFnat == (ii + 1)
                * 0xFFFF_FFFF_FFFF_FFFFnat) by (nonlinear_arith);
            total = total + files[i].size as u128;
            i += 1;
        }
        assert(meta_views(files@).subrange(0, files.len() as int) == meta_views(files@));
        FileList { files, total_size: total }
    }

    /// The inventory of a remote detailed listing: one entry per line that describes
    /// one, in the listing's order.
    pub fn from_listing(output: &str) -> (r: FileList)
        ensures
            r.wf(),
            r.entries() == ls_listing(output@).map_values(|i: InfoView| meta_of_info(i)),
    {
        let cs = chars_of(output);
        let lines = split_on(&cs, '\n');
        let ghost ls = segments(output@, '\n');
        let mut metas: Vec<FileMeta> = Vec::new();
        let mut i: usize = 0;
        while i < lines.len()
            invariant
                i <= lines.len(),
                views(lines@) == ls,
                meta_views(metas@) == ls_entries(ls.subrange(0, i as int)).map_values(
                    |e: InfoView| meta_of_info(e),
                ),
            decreases lines.len() - i,
        {
            let e = entry_of_line(&lines[i]);
            let ghost t = ls.subrange(0, i as int + 1);
            proof {
                assert(t.drop_last() == ls.subrange(0, i as int));
                assert(t.last() == lines@[i as int]@);
            }
            let ghost m0 = meta_views(metas@);
            match e {
                Some(info) => {
                    let ghost iv = info@;
                    metas.push(FileMeta::from_info(info));
                    assert(meta_views(metas@) =~= m0.push(meta_of_info(iv)));
                    assert(meta_views(metas@) =~= ls_entries(t).map_values(
                        |e: InfoView| meta_of_info(e),
                    ));
                },
                None => {},
            }
            i += 1;
        }
        assert(ls.subrange(0, lines.len() as int) == ls);
        FileList::new(metas)
    }
}

/// Building an inventory from a listing depends on the text alone: two inventories built
/// from the same text have the same entries and the same total.
pub proof fn lemma_listing_deterministic(text: Seq<char>, a: FileList, b: FileList)
    requires
        a.wf(),
        b.wf(),
        a.entries() == ls_listing(text).map_values(|i: InfoView| meta_of_info(i)),
        b.entries() == ls_listing(text).map_values(|i: InfoView| meta_of_info(i)),
    ensures
        a.entries() == b.entries(),
        a.total_size == b.total_size,
{
}

} // verus!
