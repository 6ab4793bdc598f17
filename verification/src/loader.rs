use vstd::prelude::*;

verus! {

/// Size of a page as the firmware allocates memory.
pub const UEFI_PAGE_SIZE: u64 = 0x1000;

/// Program header type of a loadable segment.
pub const PT_LOAD: u32 = 1;

/// What the boot loader reads of one ELF program header.
#[derive(Clone, Copy, PartialEq, Eq, Structural, Debug)]
pub struct LoadSegment {
    pub p_type: u32,
    pub p_offset: u64,
    pub p_vaddr: u64,
    pub p_filesz: u64,
    pub p_memsz: u64,
}

/// One step of putting a loadable segment in place: copy `copy_len` bytes of
/// the kernel file from `src_offset` to address `dest`, then clear the
/// `zero_len` bytes that follow them.
#[derive(Clone, Copy, PartialEq, Eq, Structural, Debug)]
pub struct CopyStep {
    pub dest: u64,
    pub src_offset: u64,
    pub copy_len: u64,
    pub zero_len: u64,
}

/// Where the kernel goes in memory and how it gets there.
pub struct LoadPlan {
    /// Lowest start address of a loadable segment.
    pub min_addr: u64,
    /// Highest end of a loadable segment in memory: its start plus the larger
    /// of its file size and its memory size, so that the bytes copied and the
    /// bytes cleared after them all lie below it.
    pub max_addr: u64,
    /// `max_addr - min_addr`.
    pub kernel_mem_size: u64,
    /// Pages to allocate at `min_addr`: the size rounded up to whole pages.
    pub num_pages: u64,
    /// One step per loadable segment, in the order of the program headers.
    pub copies: Vec<CopyStep>,
    /// Where the kernel is entered: the entry point of the ELF header.
    pub entry_point: u64,
}

/// Why the kernel file cannot be loaded.
#[derive(Clone, Copy, PartialEq, Eq, Structural, Debug)]
pub enum LoaderError {
    /// The file is not an ELF file the parser accepts.
    ElfParse,
    /// The file has no program header table.
    NoProgramHeaders,
    /// A loadable segment ends, in memory, beyond the 64-bit address space.
    SegmentEndOverflow,
    /// There is no loadable segment.
    NoLoadSegment,
    /// The image size rounded up to pages does not fit in 64 bits.
    SizeOverflow,
    /// A loadable segment's bytes lie beyond the end of the file.
    SegmentOutsideFile,
}

pub open spec fn is_load(s: LoadSegment) -> bool {
    s.p_type == PT_LOAD
}

/// The bytes a segment takes in memory: the copied file bytes and the
/// cleared bytes after them, that is, the larger of its two sizes.
pub open spec fn mem_size(s: LoadSegment) -> int {
    if s.p_memsz > s.p_filesz {
        s.p_memsz as int
    } else {
        s.p_filesz as int
    }
}

/// End address of a segment in memory.
pub open spec fn load_end(s: LoadSegment) -> int {
    s.p_vaddr + mem_size(s)
}

/// Some loadable segment ends beyond `u64::MAX`.
pub open spec fn any_end_overflow(segs: Seq<LoadSegment>) -> bool {
    exists|i: int| 0 <= i < segs.len() && is_load(#[trigger] segs[i]) && load_end(segs[i]) > u64::MAX
}

/// Some loadable segment's bytes lie beyond a file of `kernel_len` bytes.
pub open spec fn any_outside_file(segs: Seq<LoadSegment>, kernel_len: int) -> bool {
    exists|i: int|
        0 <= i < segs.len() && is_load(#[trigger] segs[i]) && segs[i].p_offset + segs[i].p_filesz > kernel_len
}

/// The least start address of a loadable segment; `None` where there is none.
pub open spec fn load_start_min(segs: Seq<LoadSegment>) -> Option<int>
    decreases segs.len(),
{
    if segs.len() == 0 {
        None
    } else {
        let rest = load_start_min(segs.drop_last());
        let s = segs.last();
        if !is_load(s) {
            rest
        } else {
            match rest {
                None => Some(s.p_vaddr as int),
                Some(m) => Some(if s.p_vaddr < m { s.p_vaddr as int } else { m }),
            }
        }
    }
}

/// The greatest end address of a loadable segment; `None` where there is none.
pub open spec fn load_end_max(segs: Seq<LoadSegment>) -> Option<int>
    decreases segs.len(),
{
    if segs.len() == 0 {
        None
    } else {
        let rest = load_end_max(segs.drop_last());
        let s = segs.last();
        if !is_load(s) {
            rest
        } else {
            match rest {
                None => Some(load_end(s)),
                Some(m) => Some(if load_end(s) > m { load_end(s) } else { m }),
            }
        }
    }
}

/// The step that puts one loadable segment in place.
pub open spec fn copy_step_of(s: LoadSegment) -> CopyStep {
    CopyStep {
        dest: s.p_vaddr,
        src_offset: s.p_offset,
        copy_len: s.p_filesz,
        zero_len: if s.p_memsz > s.p_filesz { (s.p_memsz - s.p_filesz) as u64 } else { 0 },
    }
}

pub open spec fn load_step(s: LoadSegment) -> Option<CopyStep> {
    if is_load(s) { Some(copy_step_of(s)) } else { None }
}

/// The steps for all loadable segments, in order.
pub open spec fn copy_steps(segs: Seq<LoadSegment>) -> Seq<CopyStep> {
    segs.filter_map(|s: LoadSegment| load_step(s))
}

/// `r` is what loading a kernel file of `kernel_len` bytes with entry point
/// `entry` and program headers `segs` comes to: the first of the errors below
/// that applies, in this order, or the plan.
pub open spec fn load_plan_matches(
    kernel_len: int,
    entry: u64,
    segs: Seq<LoadSegment>,
    r: Result<LoadPlan, LoaderError>,
) -> bool {
    if any_end_overflow(segs) {
        r == Err::<LoadPlan, LoaderError>(LoaderError::SegmentEndOverflow)
    } else {
        match (load_start_min(segs), load_end_max(segs)) {
            (Some(lo), Some(hi)) => {
                let size = hi - lo;
                if size + (UEFI_PAGE_SIZE - 1) > u64::MAX {
                    r == Err::<LoadPlan, LoaderError>(LoaderError::SizeOverflow)
                } else if any_outside_file(segs, kernel_len) {
                    r == Err::<LoadPlan, LoaderError>(LoaderError::SegmentOutsideFile)
                } else {
                    &&& r is Ok
                    &&& r->Ok_0.min_addr == lo
                    &&& r->Ok_0.max_addr == hi
                    &&& r->Ok_0.kernel_mem_size == size
                    &&& r->Ok_0.num_pages == (size + (UEFI_PAGE_SIZE - 1)) / (UEFI_PAGE_SIZE as int)
                    &&& r->Ok_0.copies@ == copy_steps(segs)
                    &&& r->Ok_0.entry_point == entry
                }
            },
            _ => r == Err::<LoadPlan, LoaderError>(LoaderError::NoLoadSegment),
        }
    }
}

/// Both extremes exist exactly when a loadable segment does, and the highest
/// end is not below the lowest start.
proof fn lemma_bounds_agree(segs: Seq<LoadSegment>)
    ensures
        load_start_min(segs) is Some <==> load_end_max(segs) is Some,
        load_start_min(segs) is Some ==> load_start_min(segs)->0 <= load_end_max(segs)->0,
    decreases segs.len(),
{
    if segs.len() > 0 {
        lemma_bounds_agree(segs.drop_last());
    }
}

/// Computes the load plan of a kernel file of `kernel_len` bytes from its
/// entry point and program headers.
pub fn plan_load(kernel_len: usize, entry: u64, segments: &[LoadSegment]) -> (r: Result<LoadPlan, LoaderError>)
    ensures
        load_plan_matches(kernel_len as int, entry, segments@, r),
{
    let ghost segs = segments@;
    let mut min_addr: u64 = u64::MAX;
    let mut max_addr: u64 = 0;
    let mut found: bool = false;
    let mut i: usize = 0;
    while i < segments.len()
        invariant
            segs == segments@,
            0 <= i <= segs.len(),
            !any_end_overflow(segs.take(i as int)),
            found <==> load_start_min(segs.take(i as int)) is Some,
            found ==> load_start_min(segs.take(i as int)) == Some(min_addr as int),
            found ==> load_end_max(segs.take(i as int)) == Some(max_addr as int),
        decreases segs.len() - i,
    {
        let s = segments[i];
        proof {
            assert(segs.take(i as int + 1).drop_last() =~= segs.take(i as int));
            lemma_bounds_agree(segs.take(i as int));
        }
        if s.p_type == PT_LOAD {
            let size = if s.p_memsz > s.p_filesz {
                s.p_memsz
            } else {
                s.p_filesz
            };
            if size > u64::MAX - s.p_vaddr {
                proof {
                    assert(is_load(segs[i as int]) && load_end(segs[i as int]) > u64::MAX);
                }
                return Err(LoaderError::SegmentEndOverflow);
            }
            let start = s.p_vaddr;
            let end = s.p_vaddr + size;
            if !found || start < min_addr {
                min_addr = start;
            }
            if !found || end > max_addr {
                max_addr = end;
            }
            found = true;
        }
        proof {
            assert forall|j: int| 0 <= j < i + 1 && is_load(#[trigger] segs.take(i as int + 1)[j]) implies load_end(
                segs.take(i as int + 1)[j],
            ) <= u64::MAX by {
                if j < i {
                    assert(segs.take(i as int + 1)[j] == segs.take(i as int)[j]);
                }
            }
        }
        i = i + 1;
    }
    proof {
        assert(segs.take(segs.len() as int) =~= segs);
        lemma_bounds_agree(segs);
    }
    if !found {
        return Err(LoaderError::NoLoadSegment);
    }
    let kernel_mem_size = max_addr - min_addr;
    if kernel_mem_size > u64::MAX - (UEFI_PAGE_SIZE - 1) {
        return Err(LoaderError::SizeOverflow);
    }
    let num_pages = (kernel_mem_size + (UEFI_PAGE_SIZE - 1)) / UEFI_PAGE_SIZE;

    let klen = kernel_len as u64;
    let mut copies: Vec<CopyStep> = Vec::new();
    let mut k: usize = 0;
    while k < segments.len()
        invariant
            segs == segments@,
            0 <= k <= segs.len(),
            klen == kernel_len,
            !any_end_overflow(segs),
            load_start_min(segs) == Some(min_addr as int),
            load_end_max(segs) == Some(max_addr as int),
            kernel_mem_size == max_addr - min_addr,
            kernel_mem_size + (UEFI_PAGE_SIZE - 1) <= u64::MAX,
            !any_outside_file(segs.take(k as int), kernel_len as int),
            copies@ == copy_steps(segs.take(k as int)),
        decreases segs.len() - k,
    {
        let s = segments[k];
        proof {
            segs.lemma_filter_map_take_succ(|s: LoadSegment| load_step(s), k as int);
        }
        if s.p_type == PT_LOAD {
            if s.p_offset > klen || s.p_filesz > klen - s.p_offset {
                proof {
                    assert(is_load(segs[k as int]) && segs[k as int].p_offset + segs[k as int].p_filesz
                        > kernel_len);
                }
                return Err(LoaderError::SegmentOutsideFile);
            }
            let zero_len = if s.p_memsz > s.p_filesz { s.p_memsz - s.p_filesz } else { 0 };
            copies.push(CopyStep { dest: s.p_vaddr, src_offset: s.p_offset, copy_len: s.p_filesz, zero_len });
        }
        proof {
            assert forall|j: int| 0 <= j < k + 1 && is_load(#[trigger] segs.take(k as int + 1)[j]) implies segs.take(
                k as int + 1,
            )[j].p_offset + segs.take(k as int + 1)[j].p_filesz <= kernel_len by {
                if j < k {
                    assert(segs.take(k as int + 1)[j] == segs.take(k as int)[j]);
                }
            }
            assert(copies@ =~= copy_steps(segs.take(k as int + 1)));
        }
        k = k + 1;
    }
    proof {
        assert(segs.take(segs.len() as int) =~= segs);
    }
    Ok(
        LoadPlan {
            min_addr,
            max_addr,
            kernel_mem_size,
            num_pages,
            copies,
            entry_point: entry,
        },
    )
}

/// The least start is below every loadable segment's start and is the start
/// of one of them; there is one exactly when a loadable segment exists.
pub proof fn lemma_load_start_min(segs: Seq<LoadSegment>)
    ensures
        load_start_min(segs) matches Some(lo) ==> {
            &&& forall|i: int| 0 <= i < segs.len() && is_load(#[trigger] segs[i]) ==> lo <= segs[i].p_vaddr
            &&& exists|i: int| 0 <= i < segs.len() && is_load(#[trigger] segs[i]) && segs[i].p_vaddr == lo
        },
        load_start_min(segs) is None <==> forall|i: int| 0 <= i < segs.len() ==> !is_load(#[trigger] segs[i]),
    decreases segs.len(),
{
    if segs.len() > 0 {
        let rest = segs.drop_last();
        lemma_load_start_min(rest);
        let n = segs.len() - 1;
        assert(segs.last() == segs[n]);
        assert forall|i: int| 0 <= i < rest.len() implies #[trigger] rest[i] == segs[i] by {}
        if let Some(lo) = load_start_min(segs) {
            assert forall|i: int| 0 <= i < segs.len() && is_load(#[trigger] segs[i]) implies lo <= segs[i].p_vaddr by {
                if i < n {
                    assert(is_load(rest[i]));
                }
            }
            if is_load(segs[n]) && segs[n].p_vaddr == lo {
                assert(is_load(segs[n]) && segs[n].p_vaddr == lo);
            } else {
                let i = choose|i: int| 0 <= i < rest.len() && is_load(#[trigger] rest[i]) && rest[i].p_vaddr == lo;
                assert(is_load(segs[i]) && segs[i].p_vaddr == lo);
            }
        } else {
            assert forall|i: int| 0 <= i < segs.len() implies !is_load(#[trigger] segs[i]) by {
                if i < n {
                    assert(!is_load(rest[i]));
                }
            }
        }
        if forall|i: int| 0 <= i < segs.len() ==> !is_load(#[trigger] segs[i]) {
            assert forall|i: int| 0 <= i < rest.len() implies !is_load(#[trigger] rest[i]) by {
                assert(!is_load(segs[i]));
            }
            assert(!is_load(segs[n]));
        }
    }
}

/// The greatest end is above every loadable segment's end and is the end of
/// one of them; there is one exactly when a loadable segment exists.
pub proof fn lemma_load_end_max(segs: Seq<LoadSegment>)
    ensures
        load_end_max(segs) matches Some(hi) ==> {
            &&& forall|i: int| 0 <= i < segs.len() && is_load(#[trigger] segs[i]) ==> load_end(segs[i]) <= hi
            &&& exists|i: int| 0 <= i < segs.len() && is_load(#[trigger] segs[i]) && load_end(segs[i]) == hi
        },
        load_end_max(segs) is None <==> forall|i: int| 0 <= i < segs.len() ==> !is_load(#[trigger] segs[i]),
    decreases segs.len(),
{
    if segs.len() > 0 {
        let rest = segs.drop_last();
        lemma_load_end_max(rest);
        let n = segs.len() - 1;
        assert(segs.last() == segs[n]);
        assert forall|i: int| 0 <= i < rest.len() implies #[trigger] rest[i] == segs[i] by {}
        if let Some(hi) = load_end_max(segs) {
            assert forall|i: int| 0 <= i < segs.len() && is_load(#[trigger] segs[i]) implies load_end(segs[i]) <= hi by {
                if i < n {
                    assert(is_load(rest[i]));
                }
            }
            if is_load(segs[n]) && load_end(segs[n]) == hi {
                assert(is_load(segs[n]) && load_end(segs[n]) == hi);
            } else {
                let i = choose|i: int| 0 <= i < rest.len() && is_load(#[trigger] rest[i]) && load_end(rest[i]) == hi;
                assert(is_load(segs[i]) && load_end(segs[i]) == hi);
            }
        } else {
            assert forall|i: int| 0 <= i < segs.len() implies !is_load(#[trigger] segs[i]) by {
                if i < n {
                    assert(!is_load(rest[i]));
                }
            }
        }
        if forall|i: int| 0 <= i < segs.len() ==> !is_load(#[trigger] segs[i]) {
            assert forall|i: int| 0 <= i < rest.len() implies !is_load(#[trigger] rest[i]) by {
                assert(!is_load(segs[i]));
            }
            assert(!is_load(segs[n]));
        }
    }
}

/// `c` is the step of one of the loadable segments of `segs`.
pub open spec fn step_of_some_load(segs: Seq<LoadSegment>, c: CopyStep) -> bool {
    exists|i: int| 0 <= i < segs.len() && is_load(#[trigger] segs[i]) && c == copy_step_of(segs[i])
}

/// Every step of the plan comes from a loadable segment.
pub proof fn lemma_copy_steps_from_loads(segs: Seq<LoadSegment>)
    ensures
        forall|j: int| 0 <= j < copy_steps(segs).len() ==> step_of_some_load(segs, #[trigger] copy_steps(segs)[j]),
    decreases segs.len(),
{
    if segs.len() > 0 {
        let rest = segs.drop_last();
        lemma_copy_steps_from_loads(rest);
        assert forall|i: int| 0 <= i < rest.len() implies #[trigger] rest[i] == segs[i] by {}
        let n = segs.len() - 1;
        segs.lemma_filter_map_take_succ(|s: LoadSegment| load_step(s), n);
        assert(segs.take(n + 1) =~= segs);
        assert(segs.take(n) =~= rest);
        let cs = copy_steps(segs);
        let cr = copy_steps(rest);
        assert forall|j: int| 0 <= j < cs.len() implies step_of_some_load(segs, #[trigger] cs[j]) by {
            if j < cr.len() {
                assert(cs[j] == cr[j]);
                assert(step_of_some_load(rest, cr[j]));
                let i = choose|i: int| 0 <= i < rest.len() && is_load(#[trigger] rest[i]) && cr[j] == copy_step_of(rest[i]);
                assert(is_load(segs[i]) && cs[j] == copy_step_of(segs[i]));
            } else {
                assert(is_load(segs[n]) && cs[j] == copy_step_of(segs[n]));
            }
        }
    } else {
        assert(copy_steps(segs) =~= Seq::<CopyStep>::empty());
    }
}

/// A load plan covers every loadable segment: each lies, with its copied
/// and its cleared bytes, between `min_addr` and `max_addr`; both bounds are
/// reached; the pages allocated are the fewest that hold the image; and every
/// step reads inside the file and writes, copy and clear alike, inside the
/// pages allocated at `min_addr`.
pub proof fn lemma_plan_covers_segments(
    kernel_len: int,
    entry: u64,
    segs: Seq<LoadSegment>,
    r: Result<LoadPlan, LoaderError>,
)
    requires
        load_plan_matches(kernel_len, entry, segs, r),
        r is Ok,
    ensures
        forall|i: int| 0 <= i < segs.len() && is_load(#[trigger] segs[i]) ==> {
            &&& r->Ok_0.min_addr <= segs[i].p_vaddr
            &&& load_end(segs[i]) <= r->Ok_0.max_addr
        },
        exists|i: int| 0 <= i < segs.len() && is_load(#[trigger] segs[i]) && segs[i].p_vaddr == r->Ok_0.min_addr,
        exists|i: int| 0 <= i < segs.len() && is_load(#[trigger] segs[i]) && load_end(segs[i]) == r->Ok_0.max_addr,
        r->Ok_0.kernel_mem_size <= r->Ok_0.num_pages * UEFI_PAGE_SIZE < r->Ok_0.kernel_mem_size + UEFI_PAGE_SIZE,
        forall|j: int| 0 <= j < r->Ok_0.copies@.len() ==> {
            &&& #[trigger] r->Ok_0.copies@[j].src_offset + r->Ok_0.copies@[j].copy_len <= kernel_len
            &&& r->Ok_0.min_addr <= r->Ok_0.copies@[j].dest
            &&& r->Ok_0.copies@[j].dest + r->Ok_0.copies@[j].copy_len + r->Ok_0.copies@[j].zero_len
                <= r->Ok_0.max_addr
            &&& r->Ok_0.copies@[j].dest + r->Ok_0.copies@[j].copy_len + r->Ok_0.copies@[j].zero_len
                <= r->Ok_0.min_addr + r->Ok_0.num_pages * UEFI_PAGE_SIZE
        },
{
    lemma_load_start_min(segs);
    lemma_load_end_max(segs);
    lemma_copy_steps_from_loads(segs);
    let plan = r->Ok_0;
    let size = plan.kernel_mem_size as int;
    assert(size <= plan.num_pages * 4096 < size + 4096) by (nonlinear_arith)
        requires
            plan.num_pages == (size + 4095) / 4096,
            size >= 0,
    ;
    assert forall|j: int| 0 <= j < plan.copies@.len() implies {
        &&& #[trigger] plan.copies@[j].src_offset + plan.copies@[j].copy_len <= kernel_len
        &&& plan.min_addr <= plan.copies@[j].dest
        &&& plan.copies@[j].dest + plan.copies@[j].copy_len + plan.copies@[j].zero_len <= plan.max_addr
        &&& plan.copies@[j].dest + plan.copies@[j].copy_len + plan.copies@[j].zero_len
            <= plan.min_addr + plan.num_pages * UEFI_PAGE_SIZE
    } by {
        assert(step_of_some_load(segs, copy_steps(segs)[j]));
        let i = choose|i: int| 0 <= i < segs.len() && is_load(#[trigger] segs[i]) && copy_steps(segs)[j] == copy_step_of(segs[i]);
        assert(is_load(segs[i]));
    }
}

/// The loadable headers of `segs`, in order.
pub open spec fn loads(segs: Seq<LoadSegment>) -> Seq<LoadSegment> {
    segs.filter(|s: LoadSegment| is_load(s))
}

/// `x` is one of the loadable headers of `segs` exactly when it is a
/// loadable header that `segs` holds.
proof fn lemma_loads_contains(segs: Seq<LoadSegment>, x: LoadSegment)
    ensures
        loads(segs).contains(x) <==> (segs.contains(x) && is_load(x)),
{
    broadcast use vstd::seq_lib::group_filter_ensures;

    if segs.contains(x) && is_load(x) {
        let i = choose|i: int| 0 <= i < segs.len() && segs[i] == x;
        segs.lemma_filter_contains(|s: LoadSegment| is_load(s), i);
    }
    if loads(segs).contains(x) {
        segs.lemma_filter_contains_rev(|s: LoadSegment| is_load(s), x);
        let j = choose|j: int| 0 <= j < loads(segs).len() && loads(segs)[j] == x;
        segs.lemma_filter_pred(|s: LoadSegment| is_load(s), j);
    }
}

/// The extremes and the steps of a plan are those of its loadable headers.
proof fn lemma_loads_recursive(segs: Seq<LoadSegment>)
    ensures
        load_start_min(loads(segs)) == load_start_min(segs),
        load_end_max(loads(segs)) == load_end_max(segs),
        copy_steps(loads(segs)) == copy_steps(segs),
    decreases segs.len(),
{
    reveal(Seq::filter);
    if segs.len() > 0 {
        let rest = segs.drop_last();
        lemma_loads_recursive(rest);
        let f = loads(segs);
        if is_load(segs.last()) {
            assert(f == loads(rest).push(segs.last()));
            assert(f.drop_last() =~= loads(rest));
            assert(f.last() == segs.last());
        } else {
            assert(f == loads(rest));
        }
    } else {
        assert(loads(segs) =~= segs);
    }
}

/// A predicate on the loadable headers holds of one of them exactly when it
/// holds of one of the loadable headers kept by `loads`.
proof fn lemma_loads_exists(segs: Seq<LoadSegment>, kernel_len: int)
    ensures
        any_end_overflow(loads(segs)) == any_end_overflow(segs),
        any_outside_file(loads(segs), kernel_len) == any_outside_file(segs, kernel_len),
{
    broadcast use vstd::seq_lib::group_filter_ensures;

    let f = loads(segs);
    if any_end_overflow(segs) {
        let i = choose|i: int| 0 <= i < segs.len() && is_load(#[trigger] segs[i]) && load_end(segs[i]) > u64::MAX;
        lemma_loads_contains(segs, segs[i]);
        let j = choose|j: int| 0 <= j < f.len() && f[j] == segs[i];
        assert(is_load(f[j]));
    }
    if any_end_overflow(f) {
        let j = choose|j: int| 0 <= j < f.len() && is_load(#[trigger] f[j]) && load_end(f[j]) > u64::MAX;
        lemma_loads_contains(segs, f[j]);
        let i = choose|i: int| 0 <= i < segs.len() && segs[i] == f[j];
        assert(is_load(segs[i]));
    }
    if any_outside_file(segs, kernel_len) {
        let i = choose|i: int|
            0 <= i < segs.len() && is_load(#[trigger] segs[i]) && segs[i].p_offset + segs[i].p_filesz > kernel_len;
        lemma_loads_contains(segs, segs[i]);
        let j = choose|j: int| 0 <= j < f.len() && f[j] == segs[i];
        assert(is_load(f[j]));
    }
    if any_outside_file(f, kernel_len) {
        let j = choose|j: int|
            0 <= j < f.len() && is_load(#[trigger] f[j]) && f[j].p_offset + f[j].p_filesz > kernel_len;
        lemma_loads_contains(segs, f[j]);
        let i = choose|i: int| 0 <= i < segs.len() && segs[i] == f[j];
        assert(is_load(segs[i]));
    }
}

/// Headers that are not loadable do not matter: two header tables with the
/// same loadable headers in the same order give the same plan or the same
/// error, wherever the other headers stand and whatever they hold.
pub proof fn lemma_plan_ignores_other_headers(
    kernel_len: int,
    entry: u64,
    a: Seq<LoadSegment>,
    b: Seq<LoadSegment>,
    r: Result<LoadPlan, LoaderError>,
)
    requires
        loads(a) == loads(b),
    ensures
        load_plan_matches(kernel_len, entry, a, r) == load_plan_matches(kernel_len, entry, b, r),
{
    lemma_loads_recursive(a);
    lemma_loads_recursive(b);
    lemma_loads_exists(a, kernel_len);
    lemma_loads_exists(b, kernel_len);
}

/// A header whose type is not `PT_LOAD` (1) plays no part in the plan:
/// appending one to the headers changes neither the plan nor the error.
pub proof fn lemma_other_header_ignored(
    kernel_len: int,
    entry: u64,
    segs: Seq<LoadSegment>,
    h: LoadSegment,
    r: Result<LoadPlan, LoaderError>,
)
    requires
        h.p_type != 1u32,
    ensures
        load_plan_matches(kernel_len, entry, segs.push(h), r) == load_plan_matches(kernel_len, entry, segs, r),
{
    segs.lemma_filter_push(h, |s: LoadSegment| is_load(s));
    lemma_plan_ignores_other_headers(kernel_len, entry, segs.push(h), segs, r);
}

/// The headers of type 1 (`PT_LOAD`), in order.
pub open spec fn type_one_headers(segs: Seq<LoadSegment>) -> Seq<LoadSegment> {
    segs.filter(|s: LoadSegment| s.p_type == 1u32)
}

/// The step of a header of type 1, written out field by field.
pub open spec fn step_for_header(h: LoadSegment) -> CopyStep {
    CopyStep {
        dest: h.p_vaddr,
        src_offset: h.p_offset,
        copy_len: h.p_filesz,
        zero_len: if h.p_memsz >= h.p_filesz { (h.p_memsz - h.p_filesz) as u64 } else { 0 },
    }
}

proof fn lemma_copy_steps_are_type_one(segs: Seq<LoadSegment>)
    ensures
        copy_steps(segs) == segs.filter(|s: LoadSegment| s.p_type == 1u32).map_values(
            |h: LoadSegment| step_for_header(h),
        ),
    decreases segs.len(),
{
    reveal(Seq::filter);
    let f = segs.filter(|s: LoadSegment| s.p_type == 1u32);
    if segs.len() == 0 {
        assert(copy_steps(segs) =~= Seq::<CopyStep>::empty());
        assert(f.map_values(|h: LoadSegment| step_for_header(h)) =~= Seq::<CopyStep>::empty());
    } else {
        let rest = segs.drop_last();
        lemma_copy_steps_are_type_one(rest);
        let n = segs.len() - 1;
        segs.lemma_filter_map_take_succ(|s: LoadSegment| load_step(s), n);
        assert(segs.take(n + 1) =~= segs);
        assert(segs.take(n) =~= rest);
        let fr = rest.filter(|s: LoadSegment| s.p_type == 1u32);
        if segs.last().p_type == 1u32 {
            assert(f == fr.push(segs.last()));
            assert(f.map_values(|h: LoadSegment| step_for_header(h)) =~= fr.map_values(
                |h: LoadSegment| step_for_header(h),
            ).push(step_for_header(segs.last())));
            assert(copy_step_of(segs[n]) == step_for_header(segs.last()));
            assert(copy_steps(segs) =~= copy_steps(rest).push(copy_step_of(segs[n])));
        } else {
            assert(f == fr);
            assert(copy_steps(segs) =~= copy_steps(rest));
        }
    }
}

/// A plan has exactly one step per header of type `PT_LOAD` (1), in header
/// order, whatever its sizes (a segment with no file bytes included): copy
/// `p_filesz` bytes from `p_offset` to `p_vaddr`, then clear
/// `p_memsz - p_filesz` bytes where the memory size is the larger.
pub proof fn lemma_one_step_per_load_header(
    kernel_len: int,
    entry: u64,
    segs: Seq<LoadSegment>,
    r: Result<LoadPlan, LoaderError>,
)
    requires
        load_plan_matches(kernel_len, entry, segs, r),
        r is Ok,
    ensures
        r->Ok_0.copies@.len() == type_one_headers(segs).len(),
        forall|j: int|
            0 <= j < r->Ok_0.copies@.len() ==> {
                let h = type_one_headers(segs)[j];
                &&& (#[trigger] r->Ok_0.copies@[j]).dest == h.p_vaddr
                &&& r->Ok_0.copies@[j].src_offset == h.p_offset
                &&& r->Ok_0.copies@[j].copy_len == h.p_filesz
                &&& r->Ok_0.copies@[j].zero_len == (if h.p_memsz >= h.p_filesz {
                    h.p_memsz - h.p_filesz
                } else {
                    0
                })
            },
{
    lemma_copy_steps_are_type_one(segs);
}

/// The image spans the headers of type `PT_LOAD` (1) in memory: it starts at
/// the lowest start of such a header and ends at the highest end of one,
/// where a header ends at its start plus the larger of its file and memory
/// sizes. It takes the fewest 4096-byte pages that hold it, and the kernel is
/// entered at the entry point given.
pub proof fn lemma_image_spans_type_one_headers(
    kernel_len: int,
    entry: u64,
    segs: Seq<LoadSegment>,
    r: Result<LoadPlan, LoaderError>,
)
    requires
        load_plan_matches(kernel_len, entry, segs, r),
        r is Ok,
    ensures
        forall|i: int|
            0 <= i < segs.len() && (#[trigger] segs[i]).p_type == 1u32 ==> {
                &&& r->Ok_0.min_addr <= segs[i].p_vaddr
                &&& segs[i].p_vaddr + (if segs[i].p_memsz >= segs[i].p_filesz {
                    segs[i].p_memsz
                } else {
                    segs[i].p_filesz
                }) <= r->Ok_0.max_addr
            },
        exists|i: int| 0 <= i < segs.len() && (#[trigger] segs[i]).p_type == 1u32 && segs[i].p_vaddr == r->Ok_0.min_addr,
        exists|i: int|
            0 <= i < segs.len() && (#[trigger] segs[i]).p_type == 1u32 && segs[i].p_vaddr + (if segs[i].p_memsz
                >= segs[i].p_filesz {
                segs[i].p_memsz
            } else {
                segs[i].p_filesz
            }) == r->Ok_0.max_addr,
        r->Ok_0.kernel_mem_size == r->Ok_0.max_addr - r->Ok_0.min_addr,
        r->Ok_0.kernel_mem_size <= r->Ok_0.num_pages * 4096 < r->Ok_0.kernel_mem_size + 4096,
        r->Ok_0.entry_point == entry,
{
    lemma_plan_covers_segments(kernel_len, entry, segs, r);
    let i = choose|i: int| 0 <= i < segs.len() && is_load(#[trigger] segs[i]) && segs[i].p_vaddr == r->Ok_0.min_addr;
    assert(segs[i].p_type == 1u32);
    let j = choose|j: int| 0 <= j < segs.len() && is_load(#[trigger] segs[j]) && load_end(segs[j]) == r->Ok_0.max_addr;
    assert(segs[j].p_type == 1u32);
    assert forall|k: int| 0 <= k < segs.len() && (#[trigger] segs[k]).p_type == 1u32 implies {
        &&& r->Ok_0.min_addr <= segs[k].p_vaddr
        &&& segs[k].p_vaddr + (if segs[k].p_memsz >= segs[k].p_filesz {
            segs[k].p_memsz
        } else {
            segs[k].p_filesz
        }) <= r->Ok_0.max_addr
    } by {
        assert(is_load(segs[k]));
    }
}

/// The five fields of a program header that loading reads, as a tuple.
pub open spec fn segment_fields(s: LoadSegment) -> (u32, u64, u64, u64, u64) {
    (s.p_type, s.p_offset, s.p_vaddr, s.p_filesz, s.p_memsz)
}

pub open spec fn segment_from_fields(t: (u32, u64, u64, u64, u64)) -> LoadSegment {
    LoadSegment { p_type: t.0, p_offset: t.1, p_vaddr: t.2, p_filesz: t.3, p_memsz: t.4 }
}

/// What the `elf` crate reads from `data`: `None` where
/// `ElfBytes::minimal_parse` refuses the file; otherwise the entry point
/// `e_entry` of the file header, with `None` where the file has no program
/// header table, and otherwise the type, offset, virtual address, file size
/// and memory size of each program header, in table order.
pub uninterp spec fn elf_headers(data: Seq<u8>) -> Option<(u64, Option<Seq<(u32, u64, u64, u64, u64)>>)>;

#[verifier::external_type_specification]
#[verifier::external_body]
pub struct ExParseError(elf::ParseError);

/// Parses `data` with `elf::ElfBytes::<AnyEndian>::minimal_parse` and, where
/// that succeeds, takes `ehdr.e_entry` and walks `segments()`, keeping five
/// fields of each header. The contract claims only that the outcome is the
/// one that `elf_headers` names for these bytes: the parse is a function of
/// the bytes alone.
#[verifier::external_body]
fn parse_elf_headers(data: &[u8]) -> (r: Result<(u64, Option<Vec<LoadSegment>>), elf::ParseError>)
    ensures
        match r {
            Err(_) => elf_headers(data@) is None,
            Ok((entry, None)) => elf_headers(data@) == Some((entry, None::<Seq<(u32, u64, u64, u64, u64)>>)),
            Ok((entry, Some(v))) => elf_headers(data@) == Some(
                (entry, Some(v@.map_values(|s: LoadSegment| segment_fields(s)))),
            ),
        },
{
    let file = elf::ElfBytes::<elf::endian::AnyEndian>::minimal_parse(data)?;
    Ok((file.ehdr.e_entry, file.segments().map(|table| table.iter().map(|ph| LoadSegment {
        p_type: ph.p_type,
        p_offset: ph.p_offset,
        p_vaddr: ph.p_vaddr,
        p_filesz: ph.p_filesz,
        p_memsz: ph.p_memsz,
    }).collect())))
}

/// What the boot loader reads of a kernel file's headers.
pub struct KernelElf {
    /// The entry point of the file header.
    pub entry: u64,
    /// The program headers, in table order.
    pub segments: Vec<LoadSegment>,
}

/// Reads the entry point and the program headers of a kernel file.
pub fn read_kernel_elf(kernel: &[u8]) -> (r: Result<KernelElf, LoaderError>)
    ensures
        match elf_headers(kernel@) {
            None => r == Err::<KernelElf, LoaderError>(LoaderError::ElfParse),
            Some((_, None)) => r == Err::<KernelElf, LoaderError>(LoaderError::NoProgramHeaders),
            Some((entry, Some(hs))) => {
                &&& r is Ok
                &&& r->Ok_0.entry == entry
                &&& r->Ok_0.segments@ == hs.map_values(|t| segment_from_fields(t))
            },
        },
{
    match parse_elf_headers(kernel) {
        Err(_) => Err(LoaderError::ElfParse),
        Ok((_, None)) => Err(LoaderError::NoProgramHeaders),
        Ok((entry, Some(v))) => {
            proof {
                let hs = v@.map_values(|s: LoadSegment| segment_fields(s));
                assert(v@ =~= hs.map_values(|t| segment_from_fields(t)));
            }
            Ok(KernelElf { entry, segments: v })
        },
    }
}

/// Reads the headers of a kernel file and computes its load plan.
pub fn plan_kernel_load(kernel: &[u8]) -> (r: Result<LoadPlan, LoaderError>)
    ensures
        match elf_headers(kernel@) {
            None => r == Err::<LoadPlan, LoaderError>(LoaderError::ElfParse),
            Some((_, None)) => r == Err::<LoadPlan, LoaderError>(LoaderError::NoProgramHeaders),
            Some((entry, Some(hs))) => load_plan_matches(
                kernel@.len() as int,
                entry,
                hs.map_values(|t| segment_from_fields(t)),
                r,
            ),
        },
{
    match read_kernel_elf(kernel) {
        Err(e) => Err(e),
        Ok(elf) => plan_load(kernel.len(), elf.entry, elf.segments.as_slice()),
    }
}

} // verus!
