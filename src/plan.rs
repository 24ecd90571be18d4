use vstd::prelude::*;
use vstd::string::StringExecFns;

verus! {

/// One candidate file: where it is read from, the name it is copied under,
/// and its size in bytes.
pub struct FileInfo {
    pub path: String,
    pub name: String,
    pub size: u64,
}

impl Clone for FileInfo {
    fn clone(&self) -> (r: Self)
        ensures
            r == *self,
    {
        FileInfo { path: self.path.clone(), name: self.name.clone(), size: self.size }
    }
}

/// Why a set of files cannot be planned.
pub enum PlanError {
    /// A single file is larger than the byte ceiling of a group.
    FileTooLarge { path: String, size: u64, max_bytes: u64 },
}

/// Start of the message for a file larger than the byte ceiling.
pub const TOO_LARGE: &'static str = "file is larger than max-bytes (";

/// The message for a file larger than the byte ceiling, given the decimal
/// forms of its size and of the ceiling, and its path.
pub open spec fn too_large_message(size: Seq<char>, max_bytes: Seq<char>, path: Seq<char>) -> Seq<
    char,
> {
    TOO_LARGE@ + size + " > "@ + max_bytes + "): "@ + path
}

impl PlanError {
    /// A one-line description of the error.
    pub fn message(&self) -> (r: String)
        ensures
            self matches PlanError::FileTooLarge { path, .. } ==> exists|a: Seq<char>, b: Seq<char>|
                r@ == too_large_message(a, b, path@),
    {
        match self {
            PlanError::FileTooLarge { path, size, max_bytes } => {
                let s = size.to_string();
                let m = max_bytes.to_string();
                let r = String::from_str(TOO_LARGE).concat(s.as_str()).concat(" > ").concat(
                    m.as_str(),
                ).concat("): ").concat(path.as_str());
                assert(r@ == too_large_message(s@, m@, path@));
                r
            },
        }
    }
}

/// Sum of the sizes of the files in `g`.
pub open spec fn total(g: Seq<FileInfo>) -> nat
    decreases g.len(),
{
    if g.len() == 0 {
        0
    } else {
        total(g.drop_last()) + g.last().size as nat
    }
}

/// The groups' members, group after group.
pub open spec fn joined(gs: Seq<Seq<FileInfo>>) -> Seq<FileInfo>
    decreases gs.len(),
{
    if gs.len() == 0 {
        Seq::empty()
    } else {
        joined(gs.drop_last()) + gs.last()
    }
}

/// The contents of each group.
pub open spec fn groups_view(gs: Seq<Vec<FileInfo>>) -> Seq<Seq<FileInfo>> {
    gs.map_values(|g: Vec<FileInfo>| g@)
}

/// A group that is non-empty and within both ceilings.
pub open spec fn fits(g: Seq<FileInfo>, max_count: nat, max_bytes: nat) -> bool {
    0 < g.len() <= max_count && total(g) <= max_bytes
}

/// Whether `f` can join `g` without exceeding either ceiling (the bounds
/// are inclusive).
pub open spec fn has_room(g: Seq<FileInfo>, f: FileInfo, max_count: nat, max_bytes: nat) -> bool {
    g.len() + 1 <= max_count && total(g) + f.size <= max_bytes
}

/// `gs` is the greedy plan of `files`: the groups hold the files in order,
/// each group fits, and each group after the first starts with a file that
/// the group before it had no room for.
pub open spec fn is_greedy_plan(
    files: Seq<FileInfo>,
    gs: Seq<Seq<FileInfo>>,
    max_count: nat,
    max_bytes: nat,
) -> bool {
    &&& joined(gs) == files
    &&& forall|k: int| 0 <= k < gs.len() ==> fits(#[trigger] gs[k], max_count, max_bytes)
    &&& forall|k: int|
        0 <= k < gs.len() - 1 ==> !has_room(#[trigger] gs[k], gs[k + 1][0], max_count, max_bytes)
}

/// Whether some file is larger than `max_bytes`.
pub open spec fn has_oversized(files: Seq<FileInfo>, max_bytes: nat) -> bool {
    exists|i: int| 0 <= i < files.len() && files[i].size > max_bytes
}

proof fn lemma_total_push(g: Seq<FileInfo>, f: FileInfo)
    ensures
        total(g.push(f)) == total(g) + f.size,
{
    assert(g.push(f).drop_last() =~= g);
}

proof fn lemma_joined_push(gs: Seq<Seq<FileInfo>>, g: Seq<FileInfo>)
    ensures
        joined(gs.push(g)) == joined(gs) + g,
{
    assert(gs.push(g).drop_last() =~= gs);
}

proof fn lemma_total_ge_member(g: Seq<FileInfo>, j: int)
    requires
        0 <= j < g.len(),
    ensures
        g[j].size <= total(g),
    decreases g.len(),
{
    if j < g.len() - 1 {
        lemma_total_ge_member(g.drop_last(), j);
    }
}

proof fn lemma_joined_members_bounded(gs: Seq<Seq<FileInfo>>, max_count: nat, max_bytes: nat)
    requires
        forall|k: int| 0 <= k < gs.len() ==> fits(#[trigger] gs[k], max_count, max_bytes),
    ensures
        forall|i: int| 0 <= i < joined(gs).len() ==> (#[trigger] joined(gs)[i]).size <= max_bytes,
    decreases gs.len(),
{
    if gs.len() > 0 {
        let rest = gs.drop_last();
        let last = gs.last();
        assert forall|k: int| 0 <= k < rest.len() implies fits(
            #[trigger] rest[k],
            max_count,
            max_bytes,
        ) by {
            assert(rest[k] == gs[k]);
        }
        lemma_joined_members_bounded(rest, max_count, max_bytes);
        assert(fits(gs[gs.len() - 1], max_count, max_bytes));
        assert forall|i: int| 0 <= i < joined(gs).len() implies (
        #[trigger] joined(gs)[i]).size <= max_bytes by {
            if i >= joined(rest).len() {
                lemma_total_ge_member(last, i - joined(rest).len());
            }
        }
    }
}

/// No group of a plan holds more than `max_count` files.
pub proof fn lemma_plan_count_bound(
    files: Seq<FileInfo>,
    gs: Seq<Seq<FileInfo>>,
    max_count: nat,
    max_bytes: nat,
)
    requires
        is_greedy_plan(files, gs, max_count, max_bytes),
    ensures
        forall|k: int| 0 <= k < gs.len() ==> (#[trigger] gs[k]).len() <= max_count,
{
    assert forall|k: int| 0 <= k < gs.len() implies (#[trigger] gs[k]).len() <= max_count by {
        assert(fits(gs[k], max_count, max_bytes));
    }
}

/// The sizes of the files in any group of a plan add up to at most
/// `max_bytes`.
pub proof fn lemma_plan_byte_bound(
    files: Seq<FileInfo>,
    gs: Seq<Seq<FileInfo>>,
    max_count: nat,
    max_bytes: nat,
)
    requires
        is_greedy_plan(files, gs, max_count, max_bytes),
    ensures
        forall|k: int| 0 <= k < gs.len() ==> total(#[trigger] gs[k]) <= max_bytes,
{
    assert forall|k: int| 0 <= k < gs.len() implies total(#[trigger] gs[k]) <= max_bytes by {
        assert(fits(gs[k], max_count, max_bytes));
    }
}

/// Reading the groups of a plan one after another gives back the input, in
/// its order: no file is lost, repeated or moved.
pub proof fn lemma_plan_keeps_order(
    files: Seq<FileInfo>,
    gs: Seq<Seq<FileInfo>>,
    max_count: nat,
    max_bytes: nat,
)
    requires
        is_greedy_plan(files, gs, max_count, max_bytes),
    ensures
        joined(gs) == files,
{
}

/// Where some file is larger than `max_bytes` there is no plan at all.
pub proof fn lemma_oversized_has_no_plan(
    files: Seq<FileInfo>,
    gs: Seq<Seq<FileInfo>>,
    max_count: nat,
    max_bytes: nat,
)
    requires
        has_oversized(files, max_bytes),
    ensures
        !is_greedy_plan(files, gs, max_count, max_bytes),
{
    if is_greedy_plan(files, gs, max_count, max_bytes) {
        lemma_joined_members_bounded(gs, max_count, max_bytes);
        let i = choose|i: int| 0 <= i < files.len() && files[i].size > max_bytes;
        assert(joined(gs)[i] == files[i]);
    }
}

/// A group closes with room for another file only when that file is larger
/// than the bytes left: a file whose size is exactly what is left joins the
/// group.
pub proof fn lemma_plan_boundary_inclusive(
    files: Seq<FileInfo>,
    gs: Seq<Seq<FileInfo>>,
    max_count: nat,
    max_bytes: nat,
)
    requires
        is_greedy_plan(files, gs, max_count, max_bytes),
    ensures
        forall|k: int|
            0 <= k < gs.len() - 1 && (#[trigger] gs[k]).len() < max_count ==> gs[k + 1][0].size
                > max_bytes - total(gs[k]),
{
    assert forall|k: int|
        0 <= k < gs.len() - 1 && (#[trigger] gs[k]).len() < max_count implies gs[k + 1][0].size
        > max_bytes - total(gs[k]) by {
        assert(!has_room(gs[k], gs[k + 1][0], max_count, max_bytes));
    }
}

proof fn lemma_joined_first(gs: Seq<Seq<FileInfo>>)
    requires
        gs.len() > 0,
    ensures
        joined(gs) == gs[0] + joined(gs.drop_first()),
    decreases gs.len(),
{
    if gs.len() > 1 {
        lemma_joined_first(gs.drop_last());
        assert(gs.drop_last().drop_first() =~= gs.drop_first().drop_last());
        assert(joined(gs.drop_first()) == joined(gs.drop_first().drop_last()) + gs.last());
    } else {
        assert(gs.drop_first() =~= Seq::<Seq<FileInfo>>::empty());
        assert(gs.drop_last() =~= Seq::<Seq<FileInfo>>::empty());
    }
}

proof fn lemma_total_prefix(g: Seq<FileInfo>, k: int)
    requires
        0 <= k <= g.len(),
    ensures
        total(g.subrange(0, k)) <= total(g),
    decreases g.len(),
{
    if k < g.len() {
        assert(g.drop_last().subrange(0, k) =~= g.subrange(0, k));
        lemma_total_prefix(g.drop_last(), k);
    } else {
        assert(g.subrange(0, k) =~= g);
    }
}

/// What follows the first group of a plan is a plan of the remaining files.
proof fn lemma_plan_rest(files: Seq<FileInfo>, gs: Seq<Seq<FileInfo>>, max_count: nat, max_bytes: nat)
    requires
        is_greedy_plan(files, gs, max_count, max_bytes),
        gs.len() > 0,
    ensures
        files == gs[0] + joined(gs.drop_first()),
        is_greedy_plan(
            files.subrange(gs[0].len() as int, files.len() as int),
            gs.drop_first(),
            max_count,
            max_bytes,
        ),
{
    lemma_joined_first(gs);
    let rest = gs.drop_first();
    assert(files.subrange(gs[0].len() as int, files.len() as int) =~= joined(rest));
    assert forall|k: int| 0 <= k < rest.len() implies fits(#[trigger] rest[k], max_count, max_bytes) by {
        assert(rest[k] == gs[k + 1]);
    }
    assert forall|k: int| 0 <= k < rest.len() - 1 implies !has_room(
        #[trigger] rest[k],
        rest[k + 1][0],
        max_count,
        max_bytes,
    ) by {
        assert(rest[k] == gs[k + 1]);
        assert(rest[k + 1] == gs[k + 2]);
    }
}

/// In two plans of the same files, the first group of one is no shorter
/// than the first group of the other.
proof fn lemma_first_group_not_shorter(
    files: Seq<FileInfo>,
    a: Seq<Seq<FileInfo>>,
    b: Seq<Seq<FileInfo>>,
    max_count: nat,
    max_bytes: nat,
)
    requires
        is_greedy_plan(files, a, max_count, max_bytes),
        is_greedy_plan(files, b, max_count, max_bytes),
        a.len() > 0,
        b.len() > 0,
    ensures
        a[0].len() >= b[0].len(),
{
    lemma_plan_rest(files, a, max_count, max_bytes);
    lemma_plan_rest(files, b, max_count, max_bytes);
    let p = a[0];
    let q = b[0];
    assert(fits(p, max_count, max_bytes));
    assert(fits(q, max_count, max_bytes));
    if p.len() < q.len() {
        let rest = a.drop_first();
        if rest.len() == 0 {
            assert(files == p + Seq::<FileInfo>::empty());
            assert(files.len() == p.len());
            assert(files.len() >= q.len());
        }
        assert(rest.len() > 0);
        lemma_joined_first(rest);
        assert(fits(a[1], max_count, max_bytes));
        assert(rest[0] == a[1]);
        let x = a[1][0];
        assert(x == files[p.len() as int]);
        assert(x == q[p.len() as int]);
        assert forall|k: int| 0 <= k < p.len() implies p[k] == q[k] by {
            assert(files[k] == (p + joined(a.drop_first()))[k]);
            assert(files[k] == (q + joined(b.drop_first()))[k]);
        }
        assert(p =~= q.subrange(0, p.len() as int));
        let longer = q.subrange(0, p.len() as int + 1);
        assert(longer.drop_last() =~= p);
        assert(longer.last() == x);
        lemma_total_prefix(q, p.len() as int + 1);
        assert(has_room(p, x, max_count, max_bytes));
        assert(!has_room(a[0], a[1][0], max_count, max_bytes));
    }
}

/// A list of files has at most one plan for given ceilings: the greedy
/// plan is fully determined by the files and the two ceilings.
pub proof fn lemma_plan_unique(
    files: Seq<FileInfo>,
    a: Seq<Seq<FileInfo>>,
    b: Seq<Seq<FileInfo>>,
    max_count: nat,
    max_bytes: nat,
)
    requires
        is_greedy_plan(files, a, max_count, max_bytes),
        is_greedy_plan(files, b, max_count, max_bytes),
    ensures
        a == b,
    decreases files.len(),
{
    if a.len() == 0 || b.len() == 0 {
        if a.len() > 0 {
            lemma_plan_rest(files, a, max_count, max_bytes);
            assert(fits(a[0], max_count, max_bytes));
            assert(files.len() == 0);
        }
        if b.len() > 0 {
            lemma_plan_rest(files, b, max_count, max_bytes);
            assert(fits(b[0], max_count, max_bytes));
            assert(files.len() == 0);
        }
        assert(a =~= b);
    } else {
        lemma_first_group_not_shorter(files, a, b, max_count, max_bytes);
        lemma_first_group_not_shorter(files, b, a, max_count, max_bytes);
        lemma_plan_rest(files, a, max_count, max_bytes);
        lemma_plan_rest(files, b, max_count, max_bytes);
        assert(a[0] =~= files.subrange(0, a[0].len() as int));
        assert(b[0] =~= files.subrange(0, b[0].len() as int));
        assert(fits(a[0], max_count, max_bytes));
        let rest_files = files.subrange(a[0].len() as int, files.len() as int);
        lemma_plan_unique(rest_files, a.drop_first(), b.drop_first(), max_count, max_bytes);
        assert(a =~= seq![a[0]] + a.drop_first());
        assert(b =~= seq![b[0]] + b.drop_first());
    }
}

/// Splits `files`, in order, into groups of at most `max_count` files and
/// at most `max_bytes` bytes. A file joins the current group whenever it
/// fits there; otherwise it starts the next group. Fails, with the first
/// file that is larger than `max_bytes`, when there is one.
pub fn plan_groups(files: &[FileInfo], max_count: usize, max_bytes: u64) -> (r: Result<
    Vec<Vec<FileInfo>>,
    PlanError,
>)
    requires
        max_count > 0,
        max_bytes > 0,
    ensures
        r is Err <==> has_oversized(files@, max_bytes as nat),
        r matches Ok(gs) ==> is_greedy_plan(
            files@,
            groups_view(gs@),
            max_count as nat,
            max_bytes as nat,
        ),
        r matches Err(PlanError::FileTooLarge { path, size, max_bytes: m }) ==> exists|i: int|
            0 <= i < files@.len() && files@[i].size > max_bytes && path == files@[i].path
                && size == files@[i].size && m == max_bytes && forall|k: int|
                0 <= k < i ==> files@[k].size <= max_bytes,
{
    let mut groups: Vec<Vec<FileInfo>> = Vec::new();
    let mut cur: Vec<FileInfo> = Vec::new();
    let mut cur_bytes: u64 = 0;
    let mut i: usize = 0;
    while i < files.len()
        invariant
            max_count > 0,
            i <= files@.len(),
            forall|k: int| 0 <= k < i ==> files@[k].size <= max_bytes,
            cur_bytes == total(cur@),
            cur_bytes <= max_bytes,
            i == 0 ==> groups@.len() == 0 && cur@.len() == 0,
            i > 0 ==> is_greedy_plan(
                files@.subrange(0, i as int),
                groups_view(groups@).push(cur@),
                max_count as nat,
                max_bytes as nat,
            ),
        decreases files@.len() - i,
    {
        let f = &files[i];
        if f.size > max_bytes {
            return Err(PlanError::FileTooLarge { path: f.path.clone(), size: f.size, max_bytes });
        }
        let ghost old_groups = groups_view(groups@);
        let ghost old_cur = cur@;
        let would_exceed_files = cur.len() > 0 && cur.len() >= max_count;
        let would_exceed_bytes = cur.len() > 0 && f.size > max_bytes - cur_bytes;
        if would_exceed_files || would_exceed_bytes {
            groups.push(cur);
            cur = Vec::new();
            cur_bytes = 0;
            proof {
                assert(groups_view(groups@) =~= old_groups.push(old_cur));
            }
        }
        let ghost mid_groups = groups_view(groups@);
        let ghost mid_cur = cur@;
        cur_bytes = cur_bytes + f.size;
        cur.push(f.clone());
        proof {
            let all = mid_groups.push(cur@);
            let prefix = files@.subrange(0, i as int);
            let next = files@.subrange(0, i + 1);
            assert(next =~= prefix.push(*f));
            assert(cur@ == mid_cur.push(*f));
            lemma_total_push(mid_cur, *f);
            lemma_joined_push(mid_groups, cur@);
            if i > 0 {
                lemma_joined_push(old_groups, old_cur);
            }
            if mid_cur.len() == 0 {
                // `f` starts a new group.
                assert(cur@ =~= seq![*f]);
                if i > 0 {
                    assert(mid_groups == old_groups.push(old_cur));
                    assert(!has_room(old_cur, *f, max_count as nat, max_bytes as nat));
                    assert(joined(mid_groups) == prefix);
                } else {
                    assert(mid_groups =~= Seq::<Seq<FileInfo>>::empty());
                }
                assert(joined(all) =~= next);
                assert forall|k: int| 0 <= k < all.len() - 1 implies !has_room(
                    #[trigger] all[k],
                    all[k + 1][0],
                    max_count as nat,
                    max_bytes as nat,
                ) by {
                    if k < all.len() - 2 {
                        assert(all[k] == old_groups.push(old_cur)[k]);
                        assert(all[k + 1] == old_groups.push(old_cur)[k + 1]);
                    }
                }
            } else {
                // `f` joins the current group.
                assert(mid_groups == old_groups);
                assert(cur@ =~= old_cur.push(*f));
                assert(cur@[0] == old_cur[0]);
                lemma_joined_push(old_groups, cur@);
                assert(joined(all) =~= next);
                assert forall|k: int| 0 <= k < all.len() - 1 implies !has_room(
                    #[trigger] all[k],
                    all[k + 1][0],
                    max_count as nat,
                    max_bytes as nat,
                ) by {
                    assert(all[k] == old_groups.push(old_cur)[k]);
                    if k < all.len() - 2 {
                        assert(all[k + 1] == old_groups.push(old_cur)[k + 1]);
                    } else {
                        assert(all[k + 1][0] == old_groups.push(old_cur)[k + 1][0]);
                    }
                }
            }
            assert forall|k: int| 0 <= k < all.len() implies fits(
                #[trigger] all[k],
                max_count as nat,
                max_bytes as nat,
            ) by {
                if k < all.len() - 1 {
                    assert(all[k] == old_groups.push(old_cur)[k]);
                } else {
                    assert(all[k] == cur@);
                    assert(cur@.len() == mid_cur.len() + 1);
                }
            }
        }
        i = i + 1;
    }
    proof {
        if i > 0 {
            let all = groups_view(groups@).push(cur@);
            assert(fits(all[all.len() - 1], max_count as nat, max_bytes as nat));
            assert(all[all.len() - 1] == cur@);
        }
    }
    if cur.len() > 0 {
        let ghost old_groups = groups_view(groups@);
        groups.push(cur);
        proof {
            assert(groups_view(groups@) =~= old_groups.push(cur@));
            assert(files@.subrange(0, files@.len() as int) =~= files@);
        }
    }
    proof {
        if files@.len() == 0 {
            assert(groups_view(groups@) =~= Seq::<Seq<FileInfo>>::empty());
            assert(files@ =~= Seq::<FileInfo>::empty());
        }
    }
    Ok(groups)
}

} // verus!
