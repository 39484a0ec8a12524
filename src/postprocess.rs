//! Score filtering, class-wise suppression and coordinate mapping of the raw
//! model output of one image.
use vstd::prelude::*;
use crate::config::{Args, PipelineError};
use crate::letterbox::{scale_from_width, width_bound};
use crate::mapper::{map_box, map_center_exec, map_extent_exec};
use crate::nms::{
    intersection_and_union, inter4, lemma_select_same_len, is_sorted_order, nms_result, select, select_flagged,
    lemma_sorted_order_unique, sort_by_confidence, suppress, union4,
};

verus! {

/// Index of the first maximum among the first `k` entries of `row`.
pub open spec fn argmax_upto(row: Seq<u32>, k: nat) -> int
    decreases k,
{
    if k <= 1 {
        0
    } else {
        let m = argmax_upto(row, (k - 1) as nat);
        if row[k - 1] > row[m] { k - 1 } else { m }
    }
}

/// Index of the first maximum of `row`; zero for an empty row.
pub open spec fn argmax(row: Seq<u32>) -> int {
    argmax_upto(row, row.len())
}

/// The maximum of `row`; zero for an empty row.
pub open spec fn row_max(row: Seq<u32>) -> u32 {
    if row.len() == 0 { 0 } else { row[argmax(row)] }
}

/// The class of each candidate: the index of its most probable class.
pub open spec fn row_classes(rows: Seq<Vec<u32>>) -> Seq<i32> {
    Seq::new(rows.len(), |i: int| argmax(rows[i]@) as i32)
}

/// The confidence of each candidate: its highest class probability.
pub open spec fn row_confs(rows: Seq<Vec<u32>>) -> Seq<u32> {
    Seq::new(rows.len(), |i: int| row_max(rows[i]@))
}

/// Which candidates reach the confidence threshold (inclusive).
pub open spec fn confident(rows: Seq<Vec<u32>>, conf_th: u32) -> Seq<bool> {
    Seq::new(rows.len(), |i: int| row_max(rows[i]@) >= conf_th)
}

/// One probability row per box, and no empty row.
pub open spec fn well_shaped(rows: Seq<Vec<u32>>, n_boxes: nat) -> bool {
    &&& rows.len() == n_boxes
    &&& forall|i: int| 0 <= i < rows.len() ==> rows[i]@.len() > 0
}

/// Boxes in the original image of fixed-point boxes in the canvas.
pub open spec fn mapped_boxes(
    boxes: Seq<[i32; 4]>,
    cfg: Args,
    orig_w: u32,
    orig_h: u32,
    x_off: u32,
    y_off: u32,
) -> Seq<[i32; 4]> {
    Seq::new(
        boxes.len(),
        |i: int|
            map_box(
                boxes[i],
                orig_w as nat,
                orig_h as nat,
                cfg.img_w as nat,
                cfg.img_h as nat,
                x_off as nat,
                y_off as nat,
            ),
    )
}

/// The postprocessing stage of one image.
#[derive(Debug)]
pub struct PostProcessor {
    pub config: Args,
}

impl PostProcessor {
    pub fn new(config: Args) -> (r: Self)
        ensures
            r.config == config,
    {
        Self { config }
    }

    /// The index and the value of the first maximum of `softmaxed`;
    /// `(0, 0)` for an empty row.
    pub fn argmax_and_max(&self, softmaxed: &Vec<u32>) -> (r: (usize, u32))
        ensures
            r.0 as int == argmax(softmaxed@),
            r.1 == row_max(softmaxed@),
            softmaxed.len() > 0 ==> {
                &&& r.0 < softmaxed.len()
                &&& r.1 == softmaxed[r.0 as int]
                &&& forall|j: int| 0 <= j < softmaxed.len() ==> softmaxed[j] <= r.1
                &&& forall|j: int| 0 <= j < r.0 ==> softmaxed[j] < r.1
            },
    {
        if softmaxed.len() == 0 {
            return (0, 0);
        }
        let mut idx: usize = 0;
        let mut best: u32 = softmaxed[0];
        let mut i: usize = 1;
        while i < softmaxed.len()
            invariant
                1 <= i <= softmaxed.len(),
                idx < i,
                idx as int == argmax_upto(softmaxed@, i as nat),
                best == softmaxed[idx as int],
                forall|j: int| 0 <= j < i ==> softmaxed[j] <= best,
                forall|j: int| 0 <= j < idx ==> softmaxed[j] < best,
            decreases softmaxed.len() - i,
        {
            if softmaxed[i] > best {
                idx = i;
                best = softmaxed[i];
            }
            i = i + 1;
        }
        (idx, best)
    }

    /// Filters candidates by confidence. `probs` holds, per candidate, the
    /// softmax of its class logits as fixed-point probabilities, and `boxes`
    /// its box. A candidate's confidence is its highest probability and its
    /// class the index of the first such; it is kept when the confidence is
    /// at least the configured threshold. Kept candidates stay in their order.
    pub fn softmax_and_filter(&self, probs: &Vec<Vec<u32>>, boxes: &Vec<[i32; 4]>) -> (r: Result<
        (Vec<i32>, Vec<u32>, Vec<[i32; 4]>),
        PipelineError,
    >)
        ensures
            match r {
                Ok((classes, confs, kept_boxes)) => {
                    &&& well_shaped(probs@, boxes.len() as nat)
                    &&& classes@ == select(row_classes(probs@), confident(probs@, self.config.conf_th))
                    &&& confs@ == select(row_confs(probs@), confident(probs@, self.config.conf_th))
                    &&& kept_boxes@ == select(boxes@, confident(probs@, self.config.conf_th))
                },
                Err(e) => !well_shaped(probs@, boxes.len() as nat) && e == PipelineError::ShapeMismatch,
            },
    {
        if probs.len() != boxes.len() {
            return Err(PipelineError::ShapeMismatch);
        }
        let n = probs.len();
        let mut classes: Vec<i32> = Vec::new();
        let mut confs: Vec<u32> = Vec::new();
        let mut flags: Vec<bool> = Vec::new();
        let mut i: usize = 0;
        while i < n
            invariant
                n == probs.len(),
                i <= n,
                classes.len() == i,
                confs.len() == i,
                flags.len() == i,
                forall|j: int| 0 <= j < i ==> probs@[j]@.len() > 0,
                forall|j: int| 0 <= j < i ==> classes@[j] == row_classes(probs@)[j],
                forall|j: int| 0 <= j < i ==> confs@[j] == row_confs(probs@)[j],
                forall|j: int| 0 <= j < i ==> flags@[j] == confident(probs@, self.config.conf_th)[j],
            decreases n - i,
        {
            if probs[i].len() == 0 {
                return Err(PipelineError::ShapeMismatch);
            }
            let (c, p) = self.argmax_and_max(&probs[i]);
            classes.push(c as i32);
            confs.push(p);
            flags.push(p >= self.config.conf_th);
            i = i + 1;
        }
        assert(classes@ == row_classes(probs@));
        assert(confs@ == row_confs(probs@));
        assert(flags@ == confident(probs@, self.config.conf_th));
        let kept_classes = select_flagged(&classes, &flags);
        let kept_confs = select_flagged(&confs, &flags);
        let kept_boxes = select_flagged(boxes, &flags);
        Ok((kept_classes, kept_confs, kept_boxes))
    }

    /// Four times the intersection and four times the union of two
    /// center-format boxes; their IoU is the quotient.
    pub fn compute_iou(&self, b1: &[i32; 4], b2: &[i32; 4]) -> (r: (i128, i128))
        ensures
            r.0 == inter4(*b1, *b2),
            r.1 == union4(*b1, *b2),
    {
        intersection_and_union(b1, b2)
    }

    /// Class-wise non-maximum suppression. Walking the candidates by
    /// descending confidence (the earlier one first among equals), each
    /// candidate is kept unless a kept candidate of its class overlaps it
    /// with an IoU above the configured threshold. The kept candidates come
    /// out in their original order.
    pub fn non_maximum_suppression(
        &self,
        class_confs: Vec<u32>,
        class_ids: Vec<i32>,
        boxes: Vec<[i32; 4]>,
    ) -> (r: (Vec<u32>, Vec<i32>, Vec<[i32; 4]>))
        requires
            class_confs.len() == class_ids.len(),
            class_ids.len() == boxes.len(),
        ensures
            exists|ord: Seq<usize>| #[trigger] is_sorted_order(class_confs@, ord),
            forall|ord: Seq<usize>|
                #[trigger] is_sorted_order(class_confs@, ord) ==> (r.0@, r.1@, r.2@) == nms_result(
                    class_confs@,
                    class_ids@,
                    boxes@,
                    self.config.iou_th,
                    ord,
                ),
    {
        let ord = sort_by_confidence(&class_confs);
        let kept = suppress(&class_ids, &boxes, self.config.iou_th, &ord);
        let confs = select_flagged(&class_confs, &kept);
        let ids = select_flagged(&class_ids, &kept);
        let kept_boxes = select_flagged(&boxes, &kept);
        assert(is_sorted_order(class_confs@, ord@));
        assert forall|o: Seq<usize>| #[trigger] is_sorted_order(class_confs@, o) implies o == ord@ by {
            lemma_sorted_order_unique(class_confs@, o, ord@);
        }
        (confs, ids, kept_boxes)
    }

    /// Maps fixed-point center-format boxes in the canvas back to pixel
    /// boxes `[x_center, y_center, width, height]` in an `orig_w x orig_h`
    /// image that was letterboxed with offsets `(x_off, y_off)`. Results are
    /// rounded to the nearest pixel and not clamped to the image.
    pub fn denormalize(
        &self,
        orig_w: u32,
        orig_h: u32,
        x_off: u32,
        y_off: u32,
        boxes: Vec<[i32; 4]>,
    ) -> (r: Vec<[i32; 4]>)
        requires
            self.config.wf(),
            orig_w > 0,
            orig_h > 0,
        ensures
            r@ == mapped_boxes(boxes@, self.config, orig_w, orig_h, x_off, y_off),
    {
        let tw = self.config.img_w;
        let th = self.config.img_h;
        let (num, den) = if scale_from_width(orig_w, orig_h, tw, th) { (tw, orig_w) } else { (th, orig_h) };
        let mut output: Vec<[i32; 4]> = Vec::new();
        let mut i: usize = 0;
        while i < boxes.len()
            invariant
                i <= boxes.len(),
                num > 0,
                tw == self.config.img_w,
                th == self.config.img_h,
                width_bound(orig_w as nat, orig_h as nat, tw as nat, th as nat) ==> num == tw && den == orig_w,
                !width_bound(orig_w as nat, orig_h as nat, tw as nat, th as nat) ==> num == th && den == orig_h,
                output@ == mapped_boxes(boxes@.subrange(0, i as int), self.config, orig_w, orig_h, x_off, y_off),
            decreases boxes.len() - i,
        {
            let b = boxes[i];
            let mapped: [i32; 4] = [
                map_center_exec(b[0], tw, x_off, num, den),
                map_center_exec(b[1], th, y_off, num, den),
                map_extent_exec(b[2], tw, num, den),
                map_extent_exec(b[3], th, num, den),
            ];
            output.push(mapped);
            proof {
                let ghost s = mapped_boxes(boxes@.subrange(0, i as int + 1), self.config, orig_w, orig_h, x_off, y_off);
                assert(s[i as int] == map_box(b, orig_w as nat, orig_h as nat, tw as nat, th as nat, x_off as nat, y_off as nat));
                assert(output@ =~= s);
            }
            i = i + 1;
        }
        assert(boxes@.subrange(0, boxes.len() as int) == boxes@);
        output
    }

    /// The detections of one image: confidence filtering, class-wise
    /// suppression, then mapping back into the `orig_w x orig_h` image with
    /// the offsets of the first entry of `offset`. Returns the boxes, their
    /// class ids and their confidences, in candidate order. Fails with
    /// `ShapeMismatch` exactly when the outputs are not well shaped or no
    /// offset is given.
    pub fn postprocess(
        &self,
        boxes: Vec<[i32; 4]>,
        probs: Vec<Vec<u32>>,
        orig_w: u32,
        orig_h: u32,
        offset: Vec<(u32, u32)>,
    ) -> (r: Result<(Vec<[i32; 4]>, Vec<i32>, Vec<u32>), PipelineError>)
        requires
            self.config.wf(),
            orig_w > 0,
            orig_h > 0,
        ensures
            match r {
                Ok((out_boxes, out_ids, out_confs)) => {
                    let flags = confident(probs@, self.config.conf_th);
                    let confs = select(row_confs(probs@), flags);
                    let ids = select(row_classes(probs@), flags);
                    let kept = select(boxes@, flags);
                    &&& well_shaped(probs@, boxes.len() as nat)
                    &&& offset.len() > 0
                    &&& exists|ord: Seq<usize>| #[trigger] is_sorted_order(confs, ord)
                    &&& forall|ord: Seq<usize>|
                        #[trigger] is_sorted_order(confs, ord) ==> {
                            let res = nms_result(confs, ids, kept, self.config.iou_th, ord);
                            &&& out_confs@ == res.0
                            &&& out_ids@ == res.1
                            &&& out_boxes@ == mapped_boxes(res.2, self.config, orig_w, orig_h, offset[0].0, offset[0].1)
                        }
                },
                Err(e) => {
                    &&& (!well_shaped(probs@, boxes.len() as nat) || offset.len() == 0)
                    &&& e == PipelineError::ShapeMismatch
                },
            },
    {
        if offset.len() == 0 {
            return Err(PipelineError::ShapeMismatch);
        }
        let (classes, confs, kept) = match self.softmax_and_filter(&probs, &boxes) {
            Ok(t) => t,
            Err(e) => return Err(e),
        };
        proof {
            let flags = confident(probs@, self.config.conf_th);
            lemma_select_same_len(row_confs(probs@), row_classes(probs@), flags);
            lemma_select_same_len(row_classes(probs@), boxes@, flags);
        }
        let (confs, ids, kept) = self.non_maximum_suppression(confs, classes, kept);
        let mapped = self.denormalize(orig_w, orig_h, offset[0].0, offset[0].1, kept);
        Ok((mapped, ids, confs))
    }
}

/// The box tensor is `(1, N, 4)` and the class tensor `(1, N, C)` with at
/// least one class.
pub open spec fn shapes_agree(box_shape: Seq<usize>, class_shape: Seq<usize>) -> bool {
    &&& box_shape.len() == 3
    &&& class_shape.len() == 3
    &&& box_shape[0] == 1
    &&& class_shape[0] == 1
    &&& box_shape[2] == 4
    &&& box_shape[1] == class_shape[1]
    &&& class_shape[2] > 0
}

/// Checks the shapes of the two model outputs against the engine's contract
/// and returns the candidate count `N` and the class count `C`.
pub fn check_output_shape(box_shape: &Vec<usize>, class_shape: &Vec<usize>) -> (r: Result<
    (usize, usize),
    PipelineError,
>)
    ensures
        match r {
            Ok((n, c)) => shapes_agree(box_shape@, class_shape@) && n == box_shape[1] && c == class_shape[2],
            Err(e) => !shapes_agree(box_shape@, class_shape@) && e == PipelineError::ShapeMismatch,
        },
{
    if box_shape.len() != 3 || class_shape.len() != 3 {
        return Err(PipelineError::ShapeMismatch);
    }
    if box_shape[0] != 1 || class_shape[0] != 1 || box_shape[2] != 4 {
        return Err(PipelineError::ShapeMismatch);
    }
    if box_shape[1] != class_shape[1] || class_shape[2] == 0 {
        return Err(PipelineError::ShapeMismatch);
    }
    Ok((box_shape[1], class_shape[2]))
}

} // verus!
