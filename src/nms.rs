//! Class-wise non-maximum suppression over fixed-point boxes.
//!
//! Boxes are center-format `[x_center, y_center, width, height]`. Areas are
//! computed on doubled corner coordinates (`2 * x_center - width`, ...), which
//! scales every area by four and leaves every IoU unchanged.
use vstd::prelude::*;
use crate::FIXED_ONE;

verus! {

/// Doubled left (or top) edge of a center-format extent.
pub open spec fn lo2(center: i32, size: i32) -> int {
    2 * center - size
}

/// Doubled right (or bottom) edge of a center-format extent.
pub open spec fn hi2(center: i32, size: i32) -> int {
    2 * center + size
}

pub open spec fn clamp0(v: int) -> int {
    if v < 0 { 0 } else { v }
}

pub open spec fn min_int(a: int, b: int) -> int {
    if a <= b { a } else { b }
}

pub open spec fn max_int(a: int, b: int) -> int {
    if a >= b { a } else { b }
}

/// Four times the area of a box, with negative extents counted as zero.
pub open spec fn area4(b: [i32; 4]) -> int {
    clamp0(hi2(b[0], b[2]) - lo2(b[0], b[2])) * clamp0(hi2(b[1], b[3]) - lo2(b[1], b[3]))
}

/// Four times the area where two boxes intersect.
pub open spec fn inter4(a: [i32; 4], b: [i32; 4]) -> int {
    clamp0(min_int(hi2(a[0], a[2]), hi2(b[0], b[2])) - max_int(lo2(a[0], a[2]), lo2(b[0], b[2])))
        * clamp0(min_int(hi2(a[1], a[3]), hi2(b[1], b[3])) - max_int(lo2(a[1], a[3]), lo2(b[1], b[3])))
}

/// Four times the area of the union of two boxes.
pub open spec fn union4(a: [i32; 4], b: [i32; 4]) -> int {
    area4(a) + area4(b) - inter4(a, b)
}

/// The IoU of `a` and `b` exceeds `iou_th / FIXED_ONE`; the IoU of boxes whose
/// union is empty is zero.
pub open spec fn overlaps(a: [i32; 4], b: [i32; 4], iou_th: u32) -> bool {
    union4(a, b) > 0 && inter4(a, b) * FIXED_ONE > (iou_th as int) * union4(a, b)
}

/// Candidate `j` comes before candidate `i` in the order of suppression:
/// higher confidence first, the earlier candidate first among equals.
pub open spec fn precedes(confs: Seq<u32>, j: int, i: int) -> bool {
    confs[j] > confs[i] || (confs[j] == confs[i] && j < i)
}

/// `ord` lists every candidate index once, in the order of suppression.
pub open spec fn is_sorted_order(confs: Seq<u32>, ord: Seq<usize>) -> bool {
    &&& ord.len() == confs.len()
    &&& forall|p: int| 0 <= p < ord.len() ==> ord[p] < confs.len()
    &&& forall|p: int, q: int| 0 <= p < q < ord.len() ==> precedes(confs, ord[p] as int, ord[q] as int)
    &&& forall|i: int| 0 <= i < confs.len() ==> #[trigger] lists(ord, i)
}

/// Index `i` stands somewhere in `ord`.
pub open spec fn lists(ord: Seq<usize>, i: int) -> bool {
    exists|p: int| 0 <= p < ord.len() && ord[p] == i
}

/// The candidate at position `k` of `ord` overlaps an already kept candidate
/// of its class that comes before it.
pub open spec fn suppressed_at(
    ids: Seq<i32>,
    boxes: Seq<[i32; 4]>,
    iou_th: u32,
    ord: Seq<usize>,
    kept: Seq<bool>,
    k: int,
) -> bool {
    exists|q: int|
        #![trigger ord[q]]
        0 <= q < k && kept[ord[q] as int] && ids[ord[q] as int] == ids[ord[k] as int]
            && overlaps(boxes[ord[q] as int], boxes[ord[k] as int], iou_th)
}

/// Which candidates are kept after the greedy walk over the first `k`
/// positions of `ord`, indexed by candidate.
pub open spec fn kept_flags(
    ids: Seq<i32>,
    boxes: Seq<[i32; 4]>,
    iou_th: u32,
    ord: Seq<usize>,
    k: nat,
) -> Seq<bool>
    decreases k,
{
    if k == 0 {
        Seq::new(ids.len(), |i: int| false)
    } else {
        let f = kept_flags(ids, boxes, iou_th, ord, (k - 1) as nat);
        f.update(ord[k - 1] as int, !suppressed_at(ids, boxes, iou_th, ord, f, k - 1))
    }
}

proof fn lemma_kept_flags_len(ids: Seq<i32>, boxes: Seq<[i32; 4]>, iou_th: u32, ord: Seq<usize>, k: nat)
    requires
        k <= ord.len(),
        forall|p: int| 0 <= p < ord.len() ==> ord[p] < ids.len(),
    ensures
        kept_flags(ids, boxes, iou_th, ord, k).len() == ids.len(),
    decreases k,
{
    if k > 0 {
        lemma_kept_flags_len(ids, boxes, iou_th, ord, (k - 1) as nat);
    }
}

/// The elements of `s` whose flag is set, in their original order.
pub open spec fn select<T>(s: Seq<T>, flags: Seq<bool>) -> Seq<T>
    decreases s.len(),
{
    if s.len() == 0 {
        Seq::empty()
    } else {
        let rest = select(s.drop_last(), flags);
        if flags[s.len() - 1] { rest.push(s.last()) } else { rest }
    }
}

/// Selecting with the same flags from sequences of equal length gives
/// sequences of equal length.
pub proof fn lemma_select_same_len<A, B>(a: Seq<A>, b: Seq<B>, flags: Seq<bool>)
    requires
        a.len() == b.len(),
    ensures
        select(a, flags).len() == select(b, flags).len(),
    decreases a.len(),
{
    if a.len() > 0 {
        lemma_select_same_len(a.drop_last(), b.drop_last(), flags);
    }
}

proof fn lemma_box_bounds(b: [i32; 4])
    ensures
        0 <= clamp0(hi2(b[0], b[2]) - lo2(b[0], b[2])) <= 0x4_0000_0000,
        0 <= clamp0(hi2(b[1], b[3]) - lo2(b[1], b[3])) <= 0x4_0000_0000,
        0 <= area4(b) <= 0x10_0000_0000_0000_0000,
{
    let w = clamp0(hi2(b[0], b[2]) - lo2(b[0], b[2]));
    let h = clamp0(hi2(b[1], b[3]) - lo2(b[1], b[3]));
    assert(0 <= w * h <= 0x4_0000_0000 * 0x4_0000_0000) by (nonlinear_arith)
        requires
            0 <= w <= 0x4_0000_0000,
            0 <= h <= 0x4_0000_0000,
    {
    }
}

proof fn lemma_inter_bounds(a: [i32; 4], b: [i32; 4])
    ensures
        0 <= inter4(a, b) <= area4(a),
        0 <= inter4(a, b) <= area4(b),
{
    let wa = clamp0(hi2(a[0], a[2]) - lo2(a[0], a[2]));
    let ha = clamp0(hi2(a[1], a[3]) - lo2(a[1], a[3]));
    let wb = clamp0(hi2(b[0], b[2]) - lo2(b[0], b[2]));
    let hb = clamp0(hi2(b[1], b[3]) - lo2(b[1], b[3]));
    let wi = clamp0(min_int(hi2(a[0], a[2]), hi2(b[0], b[2])) - max_int(lo2(a[0], a[2]), lo2(b[0], b[2])));
    let hi = clamp0(min_int(hi2(a[1], a[3]), hi2(b[1], b[3])) - max_int(lo2(a[1], a[3]), lo2(b[1], b[3])));
    assert(0 <= wi * hi <= wa * ha) by (nonlinear_arith)
        requires
            0 <= wi <= wa,
            0 <= hi <= ha,
    {
    }
    assert(0 <= wi * hi <= wb * hb) by (nonlinear_arith)
        requires
            0 <= wi <= wb,
            0 <= hi <= hb,
    {
    }
}

fn clamp0_exec(v: i128) -> (r: i128)
    ensures
        r == clamp0(v as int),
{
    if v < 0 { 0 } else { v }
}

/// Four times the intersection and four times the union of two
/// center-format boxes.
pub fn intersection_and_union(a: &[i32; 4], b: &[i32; 4]) -> (r: (i128, i128))
    ensures
        r.0 == inter4(*a, *b),
        r.1 == union4(*a, *b),
        0 <= r.0 <= 0x10_0000_0000_0000_0000,
        0 <= r.1 <= 0x20_0000_0000_0000_0000,
{
    proof {
        lemma_box_bounds(*a);
        lemma_box_bounds(*b);
        lemma_inter_bounds(*a, *b);
    }
    let alo_x: i128 = 2 * (a[0] as i128) - (a[2] as i128);
    let ahi_x: i128 = 2 * (a[0] as i128) + (a[2] as i128);
    let alo_y: i128 = 2 * (a[1] as i128) - (a[3] as i128);
    let ahi_y: i128 = 2 * (a[1] as i128) + (a[3] as i128);
    let blo_x: i128 = 2 * (b[0] as i128) - (b[2] as i128);
    let bhi_x: i128 = 2 * (b[0] as i128) + (b[2] as i128);
    let blo_y: i128 = 2 * (b[1] as i128) - (b[3] as i128);
    let bhi_y: i128 = 2 * (b[1] as i128) + (b[3] as i128);
    let ix1: i128 = if alo_x >= blo_x { alo_x } else { blo_x };
    let iy1: i128 = if alo_y >= blo_y { alo_y } else { blo_y };
    let ix2: i128 = if ahi_x <= bhi_x { ahi_x } else { bhi_x };
    let iy2: i128 = if ahi_y <= bhi_y { ahi_y } else { bhi_y };
    let inter: i128 = clamp0_exec(ix2 - ix1) * clamp0_exec(iy2 - iy1);
    let area_a: i128 = clamp0_exec(ahi_x - alo_x) * clamp0_exec(ahi_y - alo_y);
    let area_b: i128 = clamp0_exec(bhi_x - blo_x) * clamp0_exec(bhi_y - blo_y);
    (inter, area_a + area_b - inter)
}

/// Whether an IoU of `inter / union` exceeds `iou_th / FIXED_ONE`, an empty
/// union counting as an IoU of zero.
pub fn iou_exceeds(inter: i128, union: i128, iou_th: u32) -> (r: bool)
    requires
        0 <= inter <= 0x10_0000_0000_0000_0000,
        0 <= union <= 0x20_0000_0000_0000_0000,
    ensures
        r == (union > 0 && inter * FIXED_ONE > (iou_th as int) * union),
{
    proof {
        assert(inter * FIXED_ONE <= 0x10_0000_0000_0000_0000 * 0x10_0000) by (nonlinear_arith)
            requires
                0 <= inter <= 0x10_0000_0000_0000_0000,
        {
        }
        assert((iou_th as int) * union <= 0x1_0000_0000 * 0x20_0000_0000_0000_0000) by (nonlinear_arith)
            requires
                0 <= union <= 0x20_0000_0000_0000_0000,
                0 <= iou_th <= u32::MAX,
        {
        }
    }
    union > 0 && inter * (FIXED_ONE as i128) > (iou_th as i128) * union
}

/// Candidate indices in the order of suppression: by descending confidence,
/// the earlier candidate first among equal confidences.
pub fn sort_by_confidence(confs: &Vec<u32>) -> (ord: Vec<usize>)
    ensures
        is_sorted_order(confs@, ord@),
{
    let n = confs.len();
    let mut ord: Vec<usize> = Vec::new();
    let mut i: usize = 0;
    while i < n
        invariant
            n == confs.len(),
            i <= n,
            ord.len() == i,
            forall|p: int| 0 <= p < ord.len() ==> ord[p] < i,
            forall|p: int, q: int|
                0 <= p < q < ord.len() ==> precedes(confs@, ord[p] as int, ord[q] as int),
            forall|x: int| 0 <= x < i ==> #[trigger] lists(ord@, x),
        decreases n - i,
    {
        let ghost old_ord = ord@;
        let mut p: usize = 0;
        while p < ord.len() && confs[ord[p]] >= confs[i]
            invariant
                n == confs.len(),
                i < n,
                ord@ == old_ord,
                ord.len() == i,
                forall|q: int| 0 <= q < ord.len() ==> ord[q] < i,
                p <= ord.len(),
                forall|r: int| 0 <= r < p ==> confs[ord[r] as int] >= confs[i as int],
            decreases ord.len() - p,
        {
            p = p + 1;
        }
        proof {
            assert forall|r: int| p <= r < old_ord.len() implies confs[old_ord[r] as int] < confs[i as int] by {
                if r > p {
                    assert(precedes(confs@, old_ord[p as int] as int, old_ord[r] as int));
                }
            }
        }
        ord.insert(p, i);
        proof {
            assert forall|a: int, b: int| 0 <= a < b < ord.len() implies precedes(confs@, ord[a] as int, ord[b] as int) by {
                if b < p {
                    assert(ord[a] == old_ord[a] && ord[b] == old_ord[b]);
                } else if b == p {
                    assert(ord[a] == old_ord[a]);
                } else if a < p {
                    assert(ord[a] == old_ord[a] && ord[b] == old_ord[b - 1]);
                } else if a == p {
                    assert(ord[b] == old_ord[b - 1]);
                } else {
                    assert(ord[a] == old_ord[a - 1] && ord[b] == old_ord[b - 1]);
                }
            }
            assert forall|x: int| 0 <= x < i + 1 implies #[trigger] lists(ord@, x) by {
                if x == i {
                    assert(ord[p as int] == x);
                } else {
                    assert(lists(old_ord, x));
                    let q0 = choose|q: int| 0 <= q < old_ord.len() && old_ord[q] == x;
                    if q0 < p {
                        assert(ord[q0] == x);
                    } else {
                        assert(ord[q0 + 1] == x);
                    }
                }
            }
        }
        i = i + 1;
    }
    ord
}

/// Walks the candidates in the order `ord` and keeps each one that does not
/// overlap, by more than `iou_th`, a kept candidate of the same class that
/// came before it. Returns the kept flag of each candidate.
pub fn suppress(ids: &Vec<i32>, boxes: &Vec<[i32; 4]>, iou_th: u32, ord: &Vec<usize>) -> (kept: Vec<bool>)
    requires
        ids.len() == boxes.len(),
        ord.len() == ids.len(),
        forall|p: int| 0 <= p < ord.len() ==> ord[p] < ids.len(),
    ensures
        kept.len() == ids.len(),
        kept@ == kept_flags(ids@, boxes@, iou_th, ord@, ids.len() as nat),
{
    let n = ids.len();
    let mut kept: Vec<bool> = Vec::new();
    let mut i: usize = 0;
    while i < n
        invariant
            i <= n,
            kept.len() == i,
            forall|j: int| 0 <= j < i ==> kept[j] == false,
        decreases n - i,
    {
        kept.push(false);
        i = i + 1;
    }
    assert(kept@ == kept_flags(ids@, boxes@, iou_th, ord@, 0));
    let mut k: usize = 0;
    while k < n
        invariant
            n == ids.len(),
            n == boxes.len(),
            n == ord.len(),
            forall|p: int| 0 <= p < ord.len() ==> ord[p] < ids.len(),
            k <= n,
            kept@ == kept_flags(ids@, boxes@, iou_th, ord@, k as nat),
        decreases n - k,
    {
        proof {
            lemma_kept_flags_len(ids@, boxes@, iou_th, ord@, k as nat);
        }
        let c = ord[k];
        let mut sup = false;
        let mut q: usize = 0;
        while q < k
            invariant
                n == ids.len(),
                n == boxes.len(),
                n == ord.len(),
                forall|p: int| 0 <= p < ord.len() ==> ord[p] < ids.len(),
                k < n,
                c == ord[k as int],
                q <= k,
                kept.len() == n,
                kept@ == kept_flags(ids@, boxes@, iou_th, ord@, k as nat),
                sup == exists|r: int|
                    #![trigger ord@[r]]
                    0 <= r < q && kept@[ord@[r] as int] && ids@[ord@[r] as int] == ids@[c as int]
                        && overlaps(boxes@[ord@[r] as int], boxes@[c as int], iou_th),
            decreases k - q,
        {
            let j = ord[q];
            if kept[j] && ids[j] == ids[c] {
                let (inter, union) = intersection_and_union(&boxes[j], &boxes[c]);
                if iou_exceeds(inter, union, iou_th) {
                    sup = true;
                }
            }
            proof {
                if !sup {
                    assert forall|r: int| 0 <= r < q + 1 implies !(#[trigger] ord@[r] == ord@[r] && kept@[ord@[r] as int] && ids@[ord@[r] as int] == ids@[c as int]
                        && overlaps(boxes@[ord@[r] as int], boxes@[c as int], iou_th)) by {
                    }
                }
            }
            q = q + 1;
        }
        assert(sup == suppressed_at(ids@, boxes@, iou_th, ord@, kept@, k as int));
        kept.set(c, !sup);
        k = k + 1;
    }
    proof {
        lemma_kept_flags_len(ids@, boxes@, iou_th, ord@, n as nat);
    }
    kept
}

/// Keeps the entries of `v` whose flag is set, in their order.
pub fn select_flagged<T: Copy>(v: &Vec<T>, flags: &Vec<bool>) -> (r: Vec<T>)
    requires
        v.len() == flags.len(),
    ensures
        r@ == select(v@, flags@),
{
    let mut r: Vec<T> = Vec::new();
    let mut i: usize = 0;
    while i < v.len()
        invariant
            i <= v.len(),
            v.len() == flags.len(),
            r@ == select(v@.subrange(0, i as int), flags@),
        decreases v.len() - i,
    {
        assert(v@.subrange(0, i as int + 1).drop_last() == v@.subrange(0, i as int));
        if flags[i] {
            r.push(v[i]);
        }
        i = i + 1;
    }
    assert(v@.subrange(0, v.len() as int) == v@);
    r
}

/// IoU is symmetric.
pub proof fn lemma_overlaps_symmetric(a: [i32; 4], b: [i32; 4], iou_th: u32)
    ensures
        overlaps(a, b, iou_th) == overlaps(b, a, iou_th),
{
    assert(inter4(a, b) == inter4(b, a));
}

/// Two boxes at the same place with a positive area have an IoU of one,
/// which exceeds every threshold below one.
pub proof fn lemma_identical_boxes_overlap(a: [i32; 4], iou_th: u32)
    requires
        a[2] > 0,
        a[3] > 0,
        iou_th < FIXED_ONE,
    ensures
        overlaps(a, a, iou_th),
{
    let w = clamp0(hi2(a[0], a[2]) - lo2(a[0], a[2]));
    let h = clamp0(hi2(a[1], a[3]) - lo2(a[1], a[3]));
    assert(inter4(a, a) == w * h);
    assert(w * h > 0) by (nonlinear_arith)
        requires
            w > 0,
            h > 0,
    {
    }
    let u = union4(a, a);
    assert(u == w * h);
    assert(u * FIXED_ONE > (iou_th as int) * u) by (nonlinear_arith)
        requires
            u > 0,
            iou_th < FIXED_ONE,
    {
    }
}

/// Suppression of two candidates. Candidates of different classes are both
/// kept however much their boxes overlap. Candidates of one class whose IoU
/// exceeds the threshold leave only the one that comes first: the more
/// confident one, or the earlier one at equal confidence. In particular, of
/// two identical boxes of one class with a positive area (IoU one), only the
/// more confident survives any threshold below one.
pub proof fn lemma_two_candidates(
    confs: Seq<u32>,
    ids: Seq<i32>,
    boxes: Seq<[i32; 4]>,
    iou_th: u32,
    ord: Seq<usize>,
)
    requires
        confs.len() == 2,
        ids.len() == 2,
        boxes.len() == 2,
        is_sorted_order(confs, ord),
    ensures
        ids[0] != ids[1] ==> kept_flags(ids, boxes, iou_th, ord, 2) == seq![true, true],
        ids[0] == ids[1] && overlaps(boxes[0], boxes[1], iou_th) ==> {
            let w: int = if precedes(confs, 0, 1) { 0 } else { 1 };
            &&& kept_flags(ids, boxes, iou_th, ord, 2)[w]
            &&& !kept_flags(ids, boxes, iou_th, ord, 2)[1 - w]
        },
        ids[0] == ids[1] && boxes[0] == boxes[1] && boxes[0][2] > 0 && boxes[0][3] > 0 && iou_th < FIXED_ONE
            && confs[0] < confs[1] ==> kept_flags(ids, boxes, iou_th, ord, 2) == seq![false, true],
{
    if boxes[0] == boxes[1] && boxes[0][2] > 0 && boxes[0][3] > 0 && iou_th < FIXED_ONE {
        lemma_identical_boxes_overlap(boxes[0], iou_th);
    }
    assert(lists(ord, 0));
    assert(lists(ord, 1));
    assert(ord[0] != ord[1]) by {
        assert(precedes(confs, ord[0] as int, ord[1] as int));
    }
    let f0 = kept_flags(ids, boxes, iou_th, ord, 0);
    let f1 = kept_flags(ids, boxes, iou_th, ord, 1);
    let f2 = kept_flags(ids, boxes, iou_th, ord, 2);
    assert(!suppressed_at(ids, boxes, iou_th, ord, f0, 0));
    assert(f1[ord[0] as int]);
    assert(!f1[ord[1] as int]);
    lemma_overlaps_symmetric(boxes[0], boxes[1], iou_th);
    if ids[0] != ids[1] {
        assert(!suppressed_at(ids, boxes, iou_th, ord, f1, 1));
        assert(f2 =~= seq![true, true]);
    }
    if ids[0] == ids[1] && overlaps(boxes[0], boxes[1], iou_th) {
        assert(ord[0] == (if precedes(confs, 0, 1) { 0int } else { 1int })) by {
            if precedes(confs, 0, 1) {
                if ord[0] == 1 {
                    assert(precedes(confs, 1, 0));
                }
            } else {
                if ord[0] == 0 {
                    assert(precedes(confs, 0, 1));
                }
            }
        }
        assert(suppressed_at(ids, boxes, iou_th, ord, f1, 1)) by {
            assert(ord[0] < 2 && ord[1] < 2);
            assert(overlaps(boxes[ord[0] as int], boxes[ord[1] as int], iou_th));
        }
        if confs[0] < confs[1] {
            assert(f2 =~= seq![false, true]);
        }
    }
}

/// What suppression keeps when it walks the candidates in the order `ord`:
/// confidences, class ids and boxes of the kept candidates, in index order.
pub open spec fn nms_result(
    confs: Seq<u32>,
    ids: Seq<i32>,
    boxes: Seq<[i32; 4]>,
    iou_th: u32,
    ord: Seq<usize>,
) -> (Seq<u32>, Seq<i32>, Seq<[i32; 4]>) {
    let kept = kept_flags(ids, boxes, iou_th, ord, ids.len());
    (select(confs, kept), select(ids, kept), select(boxes, kept))
}

/// The indices `0, 1, ..., n - 1`.
pub open spec fn iota(n: nat) -> Seq<int> {
    Seq::new(n, |i: int| i)
}

/// Entry `j` of a selection is entry `select(iota, flags)[j]` of the source,
/// and those source indices increase and carry a set flag.
proof fn lemma_select_index<T>(s: Seq<T>, flags: Seq<bool>)
    requires
        flags.len() >= s.len(),
    ensures
        ({
            let idx = select(iota(s.len()), flags);
            &&& select(s, flags).len() == idx.len()
            &&& forall|j: int|
                0 <= j < idx.len() ==> {
                    &&& 0 <= #[trigger] idx[j] < s.len()
                    &&& flags[idx[j]]
                    &&& select(s, flags)[j] == s[idx[j]]
                }
            &&& forall|j1: int, j2: int| 0 <= j1 < j2 < idx.len() ==> idx[j1] < idx[j2]
        }),
    decreases s.len(),
{
    let n = s.len();
    if n > 0 {
        lemma_select_index(s.drop_last(), flags);
        assert(iota(n).drop_last() =~= iota((n - 1) as nat));
        assert(iota(n).last() == n - 1);
    }
}

/// Selecting with every flag set keeps everything.
proof fn lemma_select_all<T>(s: Seq<T>, flags: Seq<bool>)
    requires
        flags.len() == s.len(),
        forall|i: int| 0 <= i < flags.len() ==> flags[i],
    ensures
        select(s, flags) == s,
    decreases s.len(),
{
    if s.len() > 0 {
        lemma_select_all(s.drop_last(), flags.subrange(0, s.len() - 1));
        lemma_select_restrict(s.drop_last(), flags);
        assert(s.drop_last().push(s.last()) =~= s);
    }
}

/// Only the first `s.len()` flags matter.
proof fn lemma_select_restrict<T>(s: Seq<T>, flags: Seq<bool>)
    requires
        s.len() <= flags.len(),
    ensures
        select(s, flags) == select(s, flags.subrange(0, s.len() as int)),
    decreases s.len(),
{
    if s.len() > 0 {
        lemma_select_restrict(s.drop_last(), flags);
        lemma_select_restrict(s.drop_last(), flags.subrange(0, s.len() as int));
        assert(flags.subrange(0, s.len() as int).subrange(0, s.len() - 1) =~= flags.subrange(0, s.len() - 1));
    }
}

/// A sorted order lists each index once.
proof fn lemma_sorted_distinct(confs: Seq<u32>, ord: Seq<usize>, p: int, q: int)
    requires
        is_sorted_order(confs, ord),
        0 <= p < ord.len(),
        0 <= q < ord.len(),
        p != q,
    ensures
        ord[p] != ord[q],
{
    if p < q {
        assert(precedes(confs, ord[p] as int, ord[q] as int));
    } else {
        assert(precedes(confs, ord[q] as int, ord[p] as int));
    }
}

/// Two sorted orders of the same confidences agree up to position `p`.
proof fn lemma_sorted_unique_upto(confs: Seq<u32>, o1: Seq<usize>, o2: Seq<usize>, p: int)
    requires
        is_sorted_order(confs, o1),
        is_sorted_order(confs, o2),
        0 <= p < o1.len(),
    ensures
        forall|q: int| 0 <= q <= p ==> o1[q] == o2[q],
    decreases p,
{
    if p > 0 {
        lemma_sorted_unique_upto(confs, o1, o2, p - 1);
    }
    let x = o1[p] as int;
    let y = o2[p] as int;
    if x != y {
        assert(lists(o1, y));
        assert(lists(o2, x));
        let py = choose|q: int| 0 <= q < o1.len() && o1[q] == y;
        let px = choose|q: int| 0 <= q < o2.len() && o2[q] == x;
        if py < p {
            lemma_sorted_distinct(confs, o2, py, p);
        }
        if px < p {
            lemma_sorted_distinct(confs, o1, px, p);
        }
        assert(precedes(confs, o1[p] as int, o1[py] as int));
        assert(precedes(confs, o2[p] as int, o2[px] as int));
    }
}

/// The order of suppression is unique.
pub proof fn lemma_sorted_order_unique(confs: Seq<u32>, o1: Seq<usize>, o2: Seq<usize>)
    requires
        is_sorted_order(confs, o1),
        is_sorted_order(confs, o2),
    ensures
        o1 == o2,
{
    if o1.len() > 0 {
        lemma_sorted_unique_upto(confs, o1, o2, o1.len() - 1);
    }
    assert(o1 =~= o2);
}

/// The flag of the candidate at position `p` is decided at step `p` and
/// never changes afterwards.
proof fn lemma_flag_stable(
    confs: Seq<u32>,
    ids: Seq<i32>,
    boxes: Seq<[i32; 4]>,
    iou_th: u32,
    ord: Seq<usize>,
    p: int,
    k: nat,
)
    requires
        is_sorted_order(confs, ord),
        ids.len() == confs.len(),
        0 <= p < k <= ord.len(),
    ensures
        kept_flags(ids, boxes, iou_th, ord, k)[ord[p] as int] == !suppressed_at(
            ids,
            boxes,
            iou_th,
            ord,
            kept_flags(ids, boxes, iou_th, ord, p as nat),
            p,
        ),
    decreases k,
{
    lemma_kept_flags_len(ids, boxes, iou_th, ord, p as nat);
    if k > p + 1 {
        lemma_flag_stable(confs, ids, boxes, iou_th, ord, p, (k - 1) as nat);
        lemma_sorted_distinct(confs, ord, p, k - 1);
        lemma_kept_flags_len(ids, boxes, iou_th, ord, (k - 1) as nat);
    }
}

/// A candidate is kept exactly when no kept candidate of its class that
/// comes before it overlaps it, reading the final flags.
proof fn lemma_kept_iff(
    confs: Seq<u32>,
    ids: Seq<i32>,
    boxes: Seq<[i32; 4]>,
    iou_th: u32,
    ord: Seq<usize>,
    p: int,
)
    requires
        is_sorted_order(confs, ord),
        ids.len() == confs.len(),
        0 <= p < ord.len(),
    ensures
        ({
            let f = kept_flags(ids, boxes, iou_th, ord, ord.len());
            f[ord[p] as int] == !suppressed_at(ids, boxes, iou_th, ord, f, p)
        }),
{
    let n = ord.len();
    let f = kept_flags(ids, boxes, iou_th, ord, n);
    let fp = kept_flags(ids, boxes, iou_th, ord, p as nat);
    lemma_flag_stable(confs, ids, boxes, iou_th, ord, p, n);
    assert forall|q: int| 0 <= q < p implies fp[ord[q] as int] == f[ord[q] as int] by {
        lemma_flag_stable(confs, ids, boxes, iou_th, ord, q, p as nat);
        lemma_flag_stable(confs, ids, boxes, iou_th, ord, q, n);
    }
    if suppressed_at(ids, boxes, iou_th, ord, fp, p) {
        let q = choose|q: int|
            #![trigger ord[q]]
            0 <= q < p && fp[ord[q] as int] && ids[ord[q] as int] == ids[ord[p] as int]
                && overlaps(boxes[ord[q] as int], boxes[ord[p] as int], iou_th);
        assert(f[ord[q] as int]);
        assert(suppressed_at(ids, boxes, iou_th, ord, f, p));
    }
    if suppressed_at(ids, boxes, iou_th, ord, f, p) {
        let q = choose|q: int|
            #![trigger ord[q]]
            0 <= q < p && f[ord[q] as int] && ids[ord[q] as int] == ids[ord[p] as int]
                && overlaps(boxes[ord[q] as int], boxes[ord[p] as int], iou_th);
        assert(fp[ord[q] as int]);
        assert(suppressed_at(ids, boxes, iou_th, ord, fp, p));
    }
}

/// Suppression is idempotent: running it again, with the same threshold,
/// on what it kept keeps all of it, whatever order of suppression the
/// second run takes among the equally valid ones.
pub proof fn lemma_nms_idempotent(
    confs: Seq<u32>,
    ids: Seq<i32>,
    boxes: Seq<[i32; 4]>,
    iou_th: u32,
    ord: Seq<usize>,
    ord2: Seq<usize>,
)
    requires
        ids.len() == confs.len(),
        boxes.len() == confs.len(),
        is_sorted_order(confs, ord),
        is_sorted_order(nms_result(confs, ids, boxes, iou_th, ord).0, ord2),
    ensures
        ({
            let out = nms_result(confs, ids, boxes, iou_th, ord);
            nms_result(out.0, out.1, out.2, iou_th, ord2) == out
        }),
{
    let n = confs.len();
    let f = kept_flags(ids, boxes, iou_th, ord, n);
    lemma_kept_flags_len(ids, boxes, iou_th, ord, n);
    let c2 = select(confs, f);
    let i2 = select(ids, f);
    let b2 = select(boxes, f);
    let idx = select(iota(n), f);
    lemma_select_index(confs, f);
    lemma_select_index(ids, f);
    lemma_select_index(boxes, f);
    let m = c2.len();
    // no two selected candidates that one run orders before the other can
    // suppress each other
    assert forall|q: int, k: int|
        0 <= q < k < m implies !(i2[ord2[q] as int] == i2[ord2[k] as int] && overlaps(
            b2[ord2[q] as int],
            b2[ord2[k] as int],
            iou_th,
        )) by {
        let x = ord2[q] as int;
        let y = ord2[k] as int;
        let a = idx[x];
        let b = idx[y];
        assert(precedes(c2, x, y));
        assert(precedes(confs, a, b)) by {
            if x < y {
                assert(a < b);
            } else {
                assert(x != y);
                assert(b < a);
            }
        }
        assert(lists(ord, a));
        assert(lists(ord, b));
        let pa = choose|p: int| 0 <= p < ord.len() && ord[p] == a;
        let pb = choose|p: int| 0 <= p < ord.len() && ord[p] == b;
        if pb < pa {
            assert(precedes(confs, ord[pb] as int, ord[pa] as int));
        }
        assert(pa != pb);
        lemma_kept_iff(confs, ids, boxes, iou_th, ord, pb);
        if i2[x] == i2[y] && overlaps(b2[x], b2[y], iou_th) {
            assert(suppressed_at(ids, boxes, iou_th, ord, f, pb)) by {
                assert(ord[pa] == a);
            }
        }
    }
    let g = kept_flags(i2, b2, iou_th, ord2, m);
    assert forall|k: int| 0 <= k < m implies !#[trigger] suppressed_at(
        i2,
        b2,
        iou_th,
        ord2,
        kept_flags(i2, b2, iou_th, ord2, k as nat),
        k,
    ) by {
    }
    lemma_kept_flags_len(i2, b2, iou_th, ord2, m);
    assert forall|i: int| 0 <= i < m implies g[i] by {
        assert(lists(ord2, i));
        let p = choose|p: int| 0 <= p < ord2.len() && ord2[p] == i;
        lemma_flag_stable(c2, i2, b2, iou_th, ord2, p, m);
        assert(!suppressed_at(i2, b2, iou_th, ord2, kept_flags(i2, b2, iou_th, ord2, p as nat), p));
    }
    lemma_select_all(c2, g);
    lemma_select_all(i2, g);
    lemma_select_all(b2, g);
}

} // verus!
