use vstd::prelude::*;

use crate::inventory::{meta_views, FileList, FileMeta, MetaView};
use crate::order::{
    below, depth, lemma_below_deeper, lemma_str_lt_irreflexive, lemma_str_lt_total,
    lemma_str_lt_transitive, path_depth, str_less, str_lt,
};

verus! {

/// What an operation of a plan does to the destination.
#[derive(Clone, Copy, Debug, PartialEq, Eq, Structural)]
pub enum TransferKind {
    Create,
    Update,
    Delete,
    Skip,
}

/// Why an operation is in a plan.
#[derive(Clone, Copy, Debug, PartialEq, Eq, Structural)]
pub enum Reason {
    NewOnSource,
    SizeMismatch,
    TimeNewer,
    IdenticalByDigest,
    IdenticalBySizeAndTime,
    MissingOnSource,
}

/// One action of a transfer plan.
#[derive(Debug)]
pub struct TransferOperation {
    pub kind: TransferKind,
    pub path: String,
    pub size_bytes: u64,
    pub reason: Reason,
}

pub struct OpView {
    pub kind: TransferKind,
    pub path: Seq<char>,
    pub size_bytes: u64,
    pub reason: Reason,
}

impl View for TransferOperation {
    type V = OpView;

    open spec fn view(&self) -> OpView {
        OpView { kind: self.kind, path: self.path@, size_bytes: self.size_bytes, reason: self.reason }
    }
}

pub open spec fn op_views(v: Seq<TransferOperation>) -> Seq<OpView> {
    v.map_values(|o: TransferOperation| o@)
}

/// The only way a plan cannot be built: one inventory holds a path twice.
#[derive(Debug)]
pub enum PlanError {
    DuplicateEntry(String),
}

/// No path occurs twice.
pub open spec fn paths_unique(s: Seq<MetaView>) -> bool {
    forall|i: int, j: int| 0 <= i < j < s.len() ==> s[i].path != s[j].path
}

/// `p` occurs at two positions.
pub open spec fn duplicated(s: Seq<MetaView>, p: Seq<char>) -> bool {
    exists|i: int, j: int| 0 <= i < j < s.len() && s[i].path == p && s[j].path == p
}

pub open spec fn has_path(s: Seq<MetaView>, p: Seq<char>) -> bool {
    exists|i: int| 0 <= i < s.len() && s[i].path == p
}

/// The entry of `s` with path `p` (meaningful where `has_path(s, p)`).
pub open spec fn entry_at(s: Seq<MetaView>, p: Seq<char>) -> MetaView {
    s[choose|i: int| 0 <= i < s.len() && s[i].path == p]
}

pub open spec fn update_op(s: MetaView, reason: Reason) -> OpView {
    OpView { kind: TransferKind::Update, path: s.path, size_bytes: s.size, reason: reason }
}

pub open spec fn skip_op(s: MetaView, reason: Reason) -> OpView {
    OpView { kind: TransferKind::Skip, path: s.path, size_bytes: 0, reason: reason }
}

pub open spec fn create_op(s: MetaView) -> OpView {
    OpView {
        kind: TransferKind::Create,
        path: s.path,
        size_bytes: s.size,
        reason: Reason::NewOnSource,
    }
}

pub open spec fn delete_op(p: Seq<char>) -> OpView {
    OpView {
        kind: TransferKind::Delete,
        path: p,
        size_bytes: 0,
        reason: Reason::MissingOnSource,
    }
}

/// The operation for a path on both sides: differing digests (when digests are in
/// use), then differing sizes, then a strictly newer source time call for an update;
/// otherwise the entry is skipped, as identical by digest if both have one.
pub open spec fn compare_entries(s: MetaView, d: MetaView, use_digests: bool) -> OpView {
    let digests = use_digests && s.md5 is Some && d.md5 is Some;
    if digests && s.md5 != d.md5 {
        update_op(s, Reason::SizeMismatch)
    } else if s.size != d.size {
        update_op(s, Reason::SizeMismatch)
    } else if s.modified_time is Some && d.modified_time is Some && s.modified_time->0
        > d.modified_time->0 {
        update_op(s, Reason::TimeNewer)
    } else if digests {
        skip_op(s, Reason::IdenticalByDigest)
    } else {
        skip_op(s, Reason::IdenticalBySizeAndTime)
    }
}

/// The operation for a source entry.
pub open spec fn source_op(s: MetaView, dst: Seq<MetaView>, use_digests: bool) -> OpView {
    if has_path(dst, s.path) {
        compare_entries(s, entry_at(dst, s.path), use_digests)
    } else {
        create_op(s)
    }
}

/// `o` is one of the operations that reconcile `dst` with `src`: the one for a source
/// entry, or the deletion of a path that only the destination has.
pub open spec fn planned(src: Seq<MetaView>, dst: Seq<MetaView>, use_digests: bool, o: OpView) -> bool {
    (exists|i: int| 0 <= i < src.len() && o == source_op(src[i], dst, use_digests)) || (exists|
        j: int,
    |
        0 <= j < dst.len() && !has_path(src, dst[j].path) && o == delete_op(dst[j].path))
}

pub open spec fn rank(k: TransferKind) -> int {
    match k {
        TransferKind::Delete => 0,
        TransferKind::Create => 1,
        TransferKind::Update => 2,
        TransferKind::Skip => 3,
    }
}

/// The order of a plan: deletions, creations, updates, skips. Deletions go deepest
/// path first, so that entries go before the directories that hold them, and by
/// ascending path among paths of equal depth; the other groups go by ascending path.
pub open spec fn op_before(x: OpView, y: OpView) -> bool {
    rank(x.kind) < rank(y.kind) || (rank(x.kind) == rank(y.kind) && if x.kind
        == TransferKind::Delete {
        depth(y.path) < depth(x.path) || (depth(x.path) == depth(y.path) && str_lt(
            x.path,
            y.path,
        ))
    } else {
        str_lt(x.path, y.path)
    })
}

pub open spec fn plan_sorted(ops: Seq<OpView>) -> bool {
    forall|i: int, j: int| 0 <= i < j < ops.len() ==> op_before(ops[i], ops[j])
}

/// `ops` is the plan for `src` and `dst`: exactly the planned operations, in plan order.
pub open spec fn is_plan_for(src: Seq<MetaView>, dst: Seq<MetaView>, use_digests: bool, ops: Seq<OpView>) -> bool {
    &&& plan_sorted(ops)
    &&& forall|k: int| 0 <= k < ops.len() ==> planned(src, dst, use_digests, #[trigger] ops[k])
    &&& forall|o: OpView| planned(src, dst, use_digests, o) ==> ops.contains(o)
}

pub open spec fn count_kind(ops: Seq<OpView>, k: TransferKind) -> nat
    decreases ops.len(),
{
    if ops.len() == 0 {
        0
    } else {
        count_kind(ops.drop_last(), k) + if ops.last().kind == k {
            1nat
        } else {
            0nat
        }
    }
}

pub open spec fn bytes_to_move(ops: Seq<OpView>) -> nat
    decreases ops.len(),
{
    if ops.len() == 0 {
        0
    } else {
        bytes_to_move(ops.drop_last()) + ops.last().size_bytes as nat
    }
}

/// An ordered sequence of operations with its summary counters.
#[derive(Debug)]
pub struct TransferPlan {
    pub operations: Vec<TransferOperation>,
    pub created: usize,
    pub updated: usize,
    pub deleted: usize,
    pub skipped: usize,
    pub total_bytes: u128,
}

impl TransferPlan {
    pub open spec fn ops(&self) -> Seq<OpView> {
        op_views(self.operations@)
    }

    /// The counters summarise the operations.
    pub open spec fn wf(&self) -> bool {
        &&& self.created == count_kind(self.ops(), TransferKind::Create)
        &&& self.updated == count_kind(self.ops(), TransferKind::Update)
        &&& self.deleted == count_kind(self.ops(), TransferKind::Delete)
        &&& self.skipped == count_kind(self.ops(), TransferKind::Skip)
        &&& self.total_bytes == bytes_to_move(self.ops())
    }
}

pub proof fn lemma_op_before_irreflexive(x: OpView)
    ensures
        !op_before(x, x),
{
    lemma_str_lt_irreflexive(x.path);
}

pub proof fn lemma_op_before_transitive(x: OpView, y: OpView, z: OpView)
    requires
        op_before(x, y),
        op_before(y, z),
    ensures
        op_before(x, z),
{
    if rank(x.kind) == rank(y.kind) && rank(y.kind) == rank(z.kind) {
        if x.kind != TransferKind::Delete || (depth(x.path) == depth(y.path) && depth(y.path)
            == depth(z.path)) {
            lemma_str_lt_transitive(x.path, y.path, z.path);
        }
    }
}

pub proof fn lemma_op_before_total(x: OpView, y: OpView)
    requires
        x.path != y.path,
    ensures
        op_before(x, y) || op_before(y, x),
{
    lemma_str_lt_total(x.path, y.path);
}

pub proof fn lemma_op_before_asymmetric(x: OpView, y: OpView)
    requires
        op_before(x, y),
    ensures
        !op_before(y, x),
{
    if op_before(y, x) {
        lemma_op_before_transitive(x, y, x);
        lemma_op_before_irreflexive(x);
    }
}

/// Two sequences in strict plan order with the same members are equal.
pub proof fn lemma_sorted_unique(a: Seq<OpView>, b: Seq<OpView>)
    requires
        plan_sorted(a),
        plan_sorted(b),
        forall|o: OpView| a.contains(o) <==> b.contains(o),
    ensures
        a == b,
    decreases a.len(),
{
    if a.len() == 0 {
        if b.len() > 0 {
            assert(b.contains(b[0]));
        }
        assert(a =~= b);
    } else {
        assert(a.contains(a[0]));
        assert(b.len() > 0);
        assert(b.contains(b[0]));
        let j = choose|j: int| 0 <= j < b.len() && b[j] == a[0];
        let i = choose|i: int| 0 <= i < a.len() && a[i] == b[0];
        if i > 0 && j > 0 {
            assert(op_before(a[0], a[i]));
            assert(op_before(b[0], b[j]));
            lemma_op_before_asymmetric(a[0], b[0]);
        }
        assert(a[0] == b[0]);
        let ta = a.drop_first();
        let tb = b.drop_first();
        assert forall|o: OpView| ta.contains(o) <==> tb.contains(o) by {
            if ta.contains(o) {
                let k = choose|k: int| 0 <= k < ta.len() && ta[k] == o;
                assert(a[k + 1] == o);
                if o == a[0] {
                    lemma_op_before_irreflexive(o);
                }
                assert(b.contains(o));
                let m = choose|m: int| 0 <= m < b.len() && b[m] == o;
                assert(m != 0);
                assert(tb[m - 1] == o);
            }
            if tb.contains(o) {
                let k = choose|k: int| 0 <= k < tb.len() && tb[k] == o;
                assert(b[k + 1] == o);
                if o == b[0] {
                    lemma_op_before_irreflexive(o);
                }
                assert(a.contains(o));
                let m = choose|m: int| 0 <= m < a.len() && a[m] == o;
                assert(m != 0);
                assert(ta[m - 1] == o);
            }
        }
        lemma_sorted_unique(ta, tb);
        assert(a =~= b) by {
            assert forall|k: int| 0 <= k < a.len() implies a[k] == b[k] by {
                if k > 0 {
                    assert(a[k] == ta[k - 1]);
                    assert(b[k] == tb[k - 1]);
                }
            }
        }
    }
}

pub open spec fn distinct_paths(ops: Seq<OpView>) -> bool {
    forall|i: int, j: int| 0 <= i < j < ops.len() ==> ops[i].path != ops[j].path
}

fn rank_of(k: TransferKind) -> (r: u8)
    ensures
        r as int == rank(k),
{
    match k {
        TransferKind::Delete => 0,
        TransferKind::Create => 1,
        TransferKind::Update => 2,
        TransferKind::Skip => 3,
    }
}

/// Decides `op_before`.
fn before(x: &TransferOperation, y: &TransferOperation) -> (r: bool)
    ensures
        r == op_before(x@, y@),
{
    let rx = rank_of(x.kind);
    let ry = rank_of(y.kind);
    if rx != ry {
        rx < ry
    } else if x.kind == TransferKind::Delete {
        let dx = path_depth(&x.path);
        let dy = path_depth(&y.path);
        if dx != dy {
            dy < dx
        } else {
            str_less(&x.path, &y.path)
        }
    } else {
        str_less(&x.path, &y.path)
    }
}

/// Puts operations with distinct paths in plan order (insertion sort).
fn sort_ops(u: Vec<TransferOperation>) -> (r: Vec<TransferOperation>)
    requires
        distinct_paths(op_views(u@)),
    ensures
        plan_sorted(op_views(r@)),
        forall|o: OpView| op_views(r@).contains(o) <==> op_views(u@).contains(o),
{
    let ghost u0 = op_views(u@);
    let mut u = u;
    let mut r: Vec<TransferOperation> = Vec::new();
    while u.len() > 0
        invariant
            u.len() <= u0.len(),
            distinct_paths(u0),
            op_views(u@) == u0.subrange(0, u.len() as int),
            plan_sorted(op_views(r@)),
            forall|a: int, k: int|
                0 <= a < r.len() && 0 <= k < u.len() ==> #[trigger] op_views(r@)[a].path
                    != #[trigger] u0[k].path,
            forall|o: OpView|
                op_views(r@).contains(o) <==> (exists|k: int|
                    u.len() <= k < u0.len() && #[trigger] u0[k] == o),
        decreases u.len(),
    {
        let ghost n = u.len() as int;
        let ghost uv = op_views(u@);
        let x = u.pop().unwrap();
        assert(x@ == uv[n - 1]);
        assert(x@ == u0[n - 1]);
        assert(op_views(u@) =~= u0.subrange(0, n - 1));
        let ghost rv = op_views(r@);
        assert forall|a: int| 0 <= a < rv.len() implies #[trigger] rv[a].path != x@.path by {
            assert(rv[a].path != u0[n - 1].path);
        }
        let mut pos: usize = 0;
        while pos < r.len() && !before(&x, &r[pos])
            invariant
                pos <= r.len(),
                rv == op_views(r@),
                plan_sorted(rv),
                forall|a: int| 0 <= a < rv.len() ==> #[trigger] rv[a].path != x@.path,
                forall|a: int| 0 <= a < pos ==> op_before(#[trigger] rv[a], x@),
            decreases r.len() - pos,
        {
            proof {
                lemma_op_before_total(x@, rv[pos as int]);
            }
            pos += 1;
        }
        let ghost xv = x@;
        r.insert(pos, x);
        let ghost nr = op_views(r@);
        assert(nr =~= rv.insert(pos as int, xv));
        assert forall|i: int, j: int| 0 <= i < j < nr.len() implies op_before(nr[i], nr[j]) by {
            if j < pos {
            } else if j == pos {
                assert(nr[j] == xv);
                assert(nr[i] == rv[i]);
            } else if i < pos {
                assert(nr[i] == rv[i]);
                assert(nr[j] == rv[j - 1]);
            } else if i == pos {
                assert(nr[j] == rv[j - 1]);
                assert(op_before(xv, rv[pos as int]));
                if j - 1 > pos {
                    lemma_op_before_transitive(xv, rv[pos as int], rv[j - 1]);
                }
            } else {
                assert(nr[i] == rv[i - 1]);
                assert(nr[j] == rv[j - 1]);
            }
        }
        assert forall|a: int, k: int|
            0 <= a < r.len() && 0 <= k < u.len() implies #[trigger] op_views(r@)[a].path
            != #[trigger] u0[k].path by {
            if a < pos {
                assert(nr[a] == rv[a]);
            } else if a == pos {
                assert(nr[a] == u0[n - 1]);
            } else {
                assert(nr[a] == rv[a - 1]);
            }
        }
        assert forall|o: OpView|
            op_views(r@).contains(o) <==> (exists|k: int|
                u.len() <= k < u0.len() && #[trigger] u0[k] == o) by {
            if nr.contains(o) {
                let a = choose|a: int| 0 <= a < nr.len() && nr[a] == o;
                if a < pos {
                    assert(rv[a] == o);
                    assert(rv.contains(o));
                } else if a == pos {
                    assert(u0[n - 1] == o);
                } else {
                    assert(rv[a - 1] == o);
                    assert(rv.contains(o));
                }
            }
            if exists|k: int| u.len() <= k < u0.len() && #[trigger] u0[k] == o {
                let k = choose|k: int| u.len() <= k < u0.len() && #[trigger] u0[k] == o;
                if k == n - 1 {
                    assert(nr[pos as int] == o);
                } else {
                    assert(rv.contains(o));
                    let a = choose|a: int| 0 <= a < rv.len() && rv[a] == o;
                    if a < pos {
                        assert(nr[a] == o);
                    } else {
                        assert(nr[a + 1] == o);
                    }
                }
            }
        }
    }
    assert forall|o: OpView| op_views(r@).contains(o) <==> u0.contains(o) by {
        if u0.contains(o) {
            let k = choose|k: int| 0 <= k < u0.len() && u0[k] == o;
            assert(u0[k] == o);
        }
    }
    r
}

/// A path that occurs twice in `files`, if any.
fn find_duplicate(files: &Vec<FileMeta>) -> (r: Option<String>)
    ensures
        match r {
            None => paths_unique(meta_views(files@)),
            Some(p) => duplicated(meta_views(files@), p@),
        },
{
    let ghost v = meta_views(files@);
    let mut i: usize = 0;
    while i < files.len()
        invariant
            i <= files.len(),
            v == meta_views(files@),
            forall|a: int, b: int| 0 <= a < i && a < b < v.len() ==> v[a].path != v[b].path,
        decreases files.len() - i,
    {
        let mut j: usize = i + 1;
        while j < files.len()
            invariant
                i < j <= files.len(),
                v == meta_views(files@),
                forall|a: int, b: int| 0 <= a < i && a < b < v.len() ==> v[a].path != v[b].path,
                forall|b: int| i < b < j ==> v[i as int].path != v[b].path,
            decreases files.len() - j,
        {
            if files[i].path == files[j].path {
                assert(v[i as int].path == v[j as int].path);
                return Some(files[i].path.clone());
            }
            j += 1;
        }
        i += 1;
    }
    None
}

/// The position of the entry with path `p`, if any.
fn find_index(files: &Vec<FileMeta>, p: &String) -> (r: Option<usize>)
    ensures
        match r {
            Some(j) => j < files.len() && files@[j as int]@.path == p@,
            None => !has_path(meta_views(files@), p@),
        },
{
    let mut j: usize = 0;
    while j < files.len()
        invariant
            j <= files.len(),
            forall|k: int| 0 <= k < j ==> files@[k]@.path != p@,
        decreases files.len() - j,
    {
        if files[j].path == *p {
            return Some(j);
        }
        j += 1;
    }
    assert forall|k: int| 0 <= k < files.len() implies meta_views(files@)[k].path != p@ by {
        assert(meta_views(files@)[k] == files@[k]@);
    }
    None
}

/// Whether both entries carry a digest, and whether those differ.
fn digests_of(s: &FileMeta, d: &FileMeta) -> (r: (bool, bool))
    ensures
        r.0 == (s@.md5 is Some && d@.md5 is Some),
        r.0 ==> r.1 == (s@.md5 != d@.md5),
{
    match &s.md5 {
        Some(a) => match &d.md5 {
            Some(b) => {
                let same = *a == *b;
                (true, !same)
            },
            None => (false, false),
        },
        None => (false, false),
    }
}

fn compare_exec(s: &FileMeta, d: &FileMeta, use_digests: bool) -> (r: TransferOperation)
    ensures
        r@ == compare_entries(s@, d@, use_digests),
{
    let (both, differ) = digests_of(s, d);
    let digests = use_digests && both;
    let newer = match (s.modified_time, d.modified_time) {
        (Some(a), Some(b)) => a > b,
        _ => false,
    };
    if digests && differ {
        TransferOperation {
            kind: TransferKind::Update,
            path: s.path.clone(),
            size_bytes: s.size,
            reason: Reason::SizeMismatch,
        }
    } else if s.size != d.size {
        TransferOperation {
            kind: TransferKind::Update,
            path: s.path.clone(),
            size_bytes: s.size,
            reason: Reason::SizeMismatch,
        }
    } else if newer {
        TransferOperation {
            kind: TransferKind::Update,
            path: s.path.clone(),
            size_bytes: s.size,
            reason: Reason::TimeNewer,
        }
    } else if digests {
        TransferOperation {
            kind: TransferKind::Skip,
            path: s.path.clone(),
            size_bytes: 0,
            reason: Reason::IdenticalByDigest,
        }
    } else {
        TransferOperation {
            kind: TransferKind::Skip,
            path: s.path.clone(),
            size_bytes: 0,
            reason: Reason::IdenticalBySizeAndTime,
        }
    }
}

/// The plan made of these operations, with its counters.
fn summarize(ops: Vec<TransferOperation>) -> (r: TransferPlan)
    ensures
        r.wf(),
        r.operations@ == ops@,
{
    let ghost v = op_views(ops@);
    let mut created: usize = 0;
    let mut updated: usize = 0;
    let mut deleted: usize = 0;
    let mut skipped: usize = 0;
    let mut total: u128 = 0;
    let mut i: usize = 0;
    while i < ops.len()
        invariant
            i <= ops.len(),
            v == op_views(ops@),
            created == count_kind(v.subrange(0, i as int), TransferKind::Create),
            updated == count_kind(v.subrange(0, i as int), TransferKind::Update),
            deleted == count_kind(v.subrange(0, i as int), TransferKind::Delete),
            skipped == count_kind(v.subrange(0, i as int), TransferKind::Skip),
            created + updated + deleted + skipped == i,
            total == bytes_to_move(v.subrange(0, i as int)),
            total <= i as nat * 0xFFFF_FFFF_FFFF_FFFFnat,
        decreases ops.len() - i,
    {
        let ghost t = v.subrange(0, i as int + 1);
        assert(t.drop_last() == v.subrange(0, i as int));
        assert(t.last() == ops@[i as int]@);
        let ghost ii = i as nat;
        assert((ii + 1) * 0xFFFF_FFFF_FFFF_FFFFnat <= 0x1_0000_0000_0000_0000nat
            * 0xFFFF_FFFF_FFFF_FFFFnat) by (nonlinear_arith)
            requires
                ii < 0x1_0000_0000_0000_0000nat,
        ;
        assert(ii * 0xFFFF_FFFF_FFFF_FFFFnat + 0xFFFF_FFFF_FFFF_FFFFnat == (ii + 1)
            * 0xFFFF_FFFF_FFFF_FFFFnat) by (nonlinear_arith);
        match ops[i].kind {
            TransferKind::Create => created += 1,
            TransferKind::Update => updated += 1,
            TransferKind::Delete => deleted += 1,
            TransferKind::Skip => skipped += 1,
        }
        total = total + ops[i].size_bytes as u128;
        i += 1;
    }
    assert(v.subrange(0, ops.len() as int) == v);
    TransferPlan { operations: ops, created, updated, deleted, skipped, total_bytes: total }
}

/// Builds the transfer plan that brings `destination` in line with `source`: a creation
/// for each path only the source has, a deletion for each path only the destination
/// has, an update or a skip for each path both have, in plan order. Fails exactly when
/// an inventory holds a path twice.
pub fn build_transfer_plan(source: &FileList, destination: &FileList, use_digests: bool) -> (r:
    Result<TransferPlan, PlanError>)
    ensures
        match r {
            Ok(plan) => {
                &&& paths_unique(source.entries())
                &&& paths_unique(destination.entries())
                &&& plan.wf()
                &&& is_plan_for(source.entries(), destination.entries(), use_digests, plan.ops())
            },
            Err(PlanError::DuplicateEntry(p)) => {
                &&& !(paths_unique(source.entries()) && paths_unique(destination.entries()))
                &&& (duplicated(source.entries(), p@) || duplicated(destination.entries(), p@))
            },
        },
{
    let ghost src = source.entries();
    let ghost dst = destination.entries();
    match find_duplicate(&source.files) {
        Some(p) => {
            return Err(PlanError::DuplicateEntry(p));
        },
        None => {},
    }
    match find_duplicate(&destination.files) {
        Some(p) => {
            return Err(PlanError::DuplicateEntry(p));
        },
        None => {},
    }
    let sf = &source.files;
    let df = &destination.files;
    let mut u: Vec<TransferOperation> = Vec::new();
    let mut i: usize = 0;
    while i < sf.len()
        invariant
            i <= sf.len(),
            src == meta_views(sf@),
            dst == meta_views(df@),
            paths_unique(src),
            paths_unique(dst),
            u.len() == i,
            forall|k: int| 0 <= k < i ==> #[trigger] op_views(u@)[k] == source_op(src[k], dst, use_digests),
            distinct_paths(op_views(u@)),
        decreases sf.len() - i,
    {
        let s = &sf[i];
        assert(s@ == src[i as int]);
        let op = match find_index(df, &s.path) {
            Some(j) => {
                proof {
                    assert(dst[j as int].path == s@.path);
                    assert(has_path(dst, s@.path));
                    let c = choose|c: int| 0 <= c < dst.len() && dst[c].path == s@.path;
                    if c != j {
                        if c < j {
                            assert(dst[c].path != dst[j as int].path);
                        } else {
                            assert(dst[j as int].path != dst[c].path);
                        }
                    }
                    assert(entry_at(dst, s@.path) == df@[j as int]@);
                }
                compare_exec(s, &df[j], use_digests)
            },
            None => TransferOperation {
                kind: TransferKind::Create,
                path: s.path.clone(),
                size_bytes: s.size,
                reason: Reason::NewOnSource,
            },
        };
        assert(op@ == source_op(src[i as int], dst, use_digests));
        assert(op@.path == src[i as int].path);
        let ghost u0 = op_views(u@);
        u.push(op);
        assert(op_views(u@) =~= u0.push(op@));
        assert forall|a: int, b: int| 0 <= a < b < op_views(u@).len() implies op_views(u@)[a].path
            != op_views(u@)[b].path by {
            if b == i {
                assert(op_views(u@)[a] == source_op(src[a], dst, use_digests));
                assert(op_views(u@)[a].path == src[a].path);
            }
        }
        i += 1;
    }
    let n = u.len();
    let mut j: usize = 0;
    while j < df.len()
        invariant
            j <= df.len(),
            n == src.len(),
            src == meta_views(sf@),
            dst == meta_views(df@),
            paths_unique(src),
            paths_unique(dst),
            u.len() >= n,
            forall|k: int| 0 <= k < n ==> #[trigger] op_views(u@)[k] == source_op(src[k], dst, use_digests),
            forall|k: int|
                n <= k < u.len() ==> exists|jj: int|
                    0 <= jj < j && !has_path(src, dst[jj].path) && #[trigger] op_views(u@)[k]
                        == delete_op(dst[jj].path),
            forall|jj: int|
                0 <= jj < j && !has_path(src, dst[jj].path) ==> op_views(u@).contains(
                    delete_op(#[trigger] dst[jj].path),
                ),
            distinct_paths(op_views(u@)),
        decreases df.len() - j,
    {
        let d = &df[j];
        assert(d@ == dst[j as int]);
        let ghost u0 = op_views(u@);
        match find_index(sf, &d.path) {
            Some(k) => {
                assert(src[k as int].path == dst[j as int].path);
                assert(has_path(src, dst[j as int].path));
            },
            None => {
                let op = TransferOperation {
                    kind: TransferKind::Delete,
                    path: d.path.clone(),
                    size_bytes: 0,
                    reason: Reason::MissingOnSource,
                };
                u.push(op);
                let ghost uv = op_views(u@);
                assert(uv =~= u0.push(delete_op(dst[j as int].path)));
                assert(uv[uv.len() - 1] == delete_op(dst[j as int].path));
                assert forall|a: int, b: int| 0 <= a < b < uv.len() implies uv[a].path
                    != uv[b].path by {
                    if b == uv.len() - 1 {
                        if a < n {
                            assert(uv[a] == source_op(src[a], dst, use_digests));
                            assert(uv[a].path == src[a].path);
                        } else {
                            assert(u0[a] == uv[a]);
                            let jj = choose|jj: int|
                                0 <= jj < j && !has_path(src, dst[jj].path) && #[trigger] u0[a]
                                    == delete_op(dst[jj].path);
                            assert(dst[jj].path != dst[j as int].path);
                        }
                    } else {
                        assert(u0[a] == uv[a] && u0[b] == uv[b]);
                    }
                }
            },
        }
        let ghost uv = op_views(u@);
        assert forall|k: int| n <= k < uv.len() implies exists|jj: int|
            0 <= jj < j + 1 && !has_path(src, dst[jj].path) && #[trigger] uv[k] == delete_op(
                dst[jj].path,
            ) by {
            if k < u0.len() {
                assert(uv[k] == u0[k]);
                let jj = choose|jj: int|
                    0 <= jj < j && !has_path(src, dst[jj].path) && #[trigger] u0[k] == delete_op(
                        dst[jj].path,
                    );
                assert(0 <= jj < j + 1);
            } else {
                assert(0 <= j < j + 1);
            }
        }
        assert forall|jj: int|
            0 <= jj < j + 1 && !has_path(src, dst[jj].path) implies uv.contains(
            delete_op(#[trigger] dst[jj].path),
        ) by {
            if jj < j {
                assert(u0.contains(delete_op(dst[jj].path)));
                let k = choose|k: int| 0 <= k < u0.len() && u0[k] == delete_op(dst[jj].path);
                assert(uv[k] == u0[k]);
            } else {
                assert(uv[uv.len() - 1] == delete_op(dst[jj].path));
            }
        }
        assert forall|k: int| 0 <= k < n implies #[trigger] uv[k] == source_op(
            src[k],
            dst,
            use_digests,
        ) by {
            assert(uv[k] == u0[k]);
        }
        j += 1;
    }
    let ghost uv = op_views(u@);
    let sorted = sort_ops(u);
    let plan = summarize(sorted);
    let ghost ops = plan.ops();
    assert(ops == op_views(sorted@));
    assert forall|k: int| 0 <= k < ops.len() implies planned(src, dst, use_digests, #[trigger] ops[k]) by {
        assert(ops.contains(ops[k]));
        assert(uv.contains(ops[k]));
        let m = choose|m: int| 0 <= m < uv.len() && uv[m] == ops[k];
        if m < n {
            assert(uv[m] == source_op(src[m], dst, use_digests));
        } else {
            let jj = choose|jj: int|
                0 <= jj < dst.len() && !has_path(src, dst[jj].path) && #[trigger] uv[m] == delete_op(
                    dst[jj].path,
                );
        }
    }
    assert forall|o: OpView| planned(src, dst, use_digests, o) implies ops.contains(o) by {
        if exists|i: int| 0 <= i < src.len() && o == source_op(src[i], dst, use_digests) {
            let i = choose|i: int| 0 <= i < src.len() && o == source_op(src[i], dst, use_digests);
            assert(uv[i] == o);
            assert(uv.contains(o));
        } else {
            let jj = choose|jj: int|
                0 <= jj < dst.len() && !has_path(src, dst[jj].path) && o == delete_op(dst[jj].path);
            assert(uv.contains(delete_op(dst[jj].path)));
        }
    }
    Ok(plan)
}

/// `o` stands in `ops`, and no other operation of `ops` has its path `p`.
pub open spec fn only_op_for(ops: Seq<OpView>, p: Seq<char>, o: OpView) -> bool {
    exists|k: int|
        0 <= k < ops.len() && ops[k] == o && forall|k2: int|
            0 <= k2 < ops.len() && (#[trigger] ops[k2]).path == p ==> k2 == k
}

/// Two plans for the same inventories are the same sequence: building a plan is
/// deterministic, in operations, order and reasons.
pub proof fn lemma_plan_deterministic(
    src: Seq<MetaView>,
    dst: Seq<MetaView>,
    use_digests: bool,
    a: Seq<OpView>,
    b: Seq<OpView>,
)
    requires
        is_plan_for(src, dst, use_digests, a),
        is_plan_for(src, dst, use_digests, b),
    ensures
        a == b,
{
    assert forall|o: OpView| a.contains(o) <==> b.contains(o) by {
        if a.contains(o) {
            let k = choose|k: int| 0 <= k < a.len() && a[k] == o;
            assert(planned(src, dst, use_digests, a[k]));
        }
        if b.contains(o) {
            let k = choose|k: int| 0 <= k < b.len() && b[k] == o;
            assert(planned(src, dst, use_digests, b[k]));
        }
    }
    lemma_sorted_unique(a, b);
}

/// Every planned operation is the only one of the plan on its path.
pub proof fn lemma_single_op(
    src: Seq<MetaView>,
    dst: Seq<MetaView>,
    use_digests: bool,
    ops: Seq<OpView>,
    o: OpView,
)
    requires
        paths_unique(src),
        paths_unique(dst),
        is_plan_for(src, dst, use_digests, ops),
        planned(src, dst, use_digests, o),
    ensures
        only_op_for(ops, o.path, o),
{
    assert(ops.contains(o));
    let k = choose|k: int| 0 <= k < ops.len() && ops[k] == o;
    assert forall|k2: int| 0 <= k2 < ops.len() && (#[trigger] ops[k2]).path == o.path implies k2
        == k by {
        let x = ops[k2];
        assert(planned(src, dst, use_digests, x));
        if exists|i: int| 0 <= i < src.len() && x == source_op(src[i], dst, use_digests) {
            let i2 = choose|i: int| 0 <= i < src.len() && x == source_op(src[i], dst, use_digests);
            assert(x.path == src[i2].path);
            if exists|i: int| 0 <= i < src.len() && o == source_op(src[i], dst, use_digests) {
                let i1 = choose|i: int|
                    0 <= i < src.len() && o == source_op(src[i], dst, use_digests);
                assert(o.path == src[i1].path);
                if i1 < i2 {
                    assert(src[i1].path != src[i2].path);
                } else if i2 < i1 {
                    assert(src[i2].path != src[i1].path);
                }
            } else {
                let j1 = choose|j: int|
                    0 <= j < dst.len() && !has_path(src, dst[j].path) && o == delete_op(dst[j].path);
                assert(src[i2].path == dst[j1].path);
            }
        } else {
            let j2 = choose|j: int|
                0 <= j < dst.len() && !has_path(src, dst[j].path) && x == delete_op(dst[j].path);
            if exists|i: int| 0 <= i < src.len() && o == source_op(src[i], dst, use_digests) {
                let i1 = choose|i: int|
                    0 <= i < src.len() && o == source_op(src[i], dst, use_digests);
                assert(o.path == src[i1].path);
                assert(src[i1].path == dst[j2].path);
            } else {
                let j1 = choose|j: int|
                    0 <= j < dst.len() && !has_path(src, dst[j].path) && o == delete_op(dst[j].path);
                assert(x == o);
            }
        }
        assert(x == o);
        if k < k2 {
            assert(op_before(ops[k], ops[k2]));
            lemma_op_before_irreflexive(o);
        } else if k2 < k {
            assert(op_before(ops[k2], ops[k]));
            lemma_op_before_irreflexive(o);
        }
    }
}

/// A path that only the source has gets exactly one operation: its creation.
pub proof fn lemma_new_path_created(
    src: Seq<MetaView>,
    dst: Seq<MetaView>,
    use_digests: bool,
    ops: Seq<OpView>,
    i: int,
)
    requires
        paths_unique(src),
        paths_unique(dst),
        is_plan_for(src, dst, use_digests, ops),
        0 <= i < src.len(),
        !has_path(dst, src[i].path),
    ensures
        only_op_for(ops, src[i].path, create_op(src[i])),
{
    assert(planned(src, dst, use_digests, source_op(src[i], dst, use_digests)));
    lemma_single_op(src, dst, use_digests, ops, create_op(src[i]));
}

/// A path that only the destination has gets exactly one operation: its deletion.
pub proof fn lemma_missing_path_deleted(
    src: Seq<MetaView>,
    dst: Seq<MetaView>,
    use_digests: bool,
    ops: Seq<OpView>,
    j: int,
)
    requires
        paths_unique(src),
        paths_unique(dst),
        is_plan_for(src, dst, use_digests, ops),
        0 <= j < dst.len(),
        !has_path(src, dst[j].path),
    ensures
        only_op_for(ops, dst[j].path, delete_op(dst[j].path)),
{
    assert(planned(src, dst, use_digests, delete_op(dst[j].path)));
    lemma_single_op(src, dst, use_digests, ops, delete_op(dst[j].path));
}

/// A path that both sides have with equal size, equal (or absent) times and no
/// digests gets exactly one operation: a skip, as identical by size and time.
pub proof fn lemma_same_entry_skipped(
    src: Seq<MetaView>,
    dst: Seq<MetaView>,
    use_digests: bool,
    ops: Seq<OpView>,
    i: int,
    j: int,
)
    requires
        paths_unique(src),
        paths_unique(dst),
        is_plan_for(src, dst, use_digests, ops),
        0 <= i < src.len(),
        0 <= j < dst.len(),
        src[i].path == dst[j].path,
        src[i].size == dst[j].size,
        src[i].modified_time == dst[j].modified_time,
        src[i].md5 is None,
        dst[j].md5 is None,
    ensures
        only_op_for(ops, src[i].path, skip_op(src[i], Reason::IdenticalBySizeAndTime)),
{
    assert(has_path(dst, src[i].path));
    let c = choose|c: int| 0 <= c < dst.len() && dst[c].path == src[i].path;
    if c < j {
        assert(dst[c].path != dst[j].path);
    } else if j < c {
        assert(dst[j].path != dst[c].path);
    }
    assert(entry_at(dst, src[i].path) == dst[j]);
    assert(source_op(src[i], dst, use_digests) == skip_op(src[i], Reason::IdenticalBySizeAndTime));
    assert(planned(src, dst, use_digests, source_op(src[i], dst, use_digests)));
    lemma_single_op(src, dst, use_digests, ops, skip_op(src[i], Reason::IdenticalBySizeAndTime));
}

/// Of two deletions, the one of an entry inside a directory comes before the one of the
/// directory.
pub proof fn lemma_children_deleted_first(
    src: Seq<MetaView>,
    dst: Seq<MetaView>,
    use_digests: bool,
    ops: Seq<OpView>,
    k_child: int,
    k_parent: int,
)
    requires
        is_plan_for(src, dst, use_digests, ops),
        0 <= k_child < ops.len(),
        0 <= k_parent < ops.len(),
        ops[k_child].kind == TransferKind::Delete,
        ops[k_parent].kind == TransferKind::Delete,
        below(ops[k_child].path, ops[k_parent].path),
    ensures
        k_child < k_parent,
{
    let p = ops[k_parent].path;
    let q = ops[k_child].path;
    lemma_below_deeper(q, p);
    if k_parent < k_child {
        assert(op_before(ops[k_parent], ops[k_child]));
    }
    assert(k_child != k_parent);
}

} // verus!
