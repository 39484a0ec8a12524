//! Conversion of a YOLO model result into the message sent to callers.
//!
//! Both sides are generic over the score type `T`, so that the conversion
//! holds whatever numeric type the scores are carried in.
use vstd::prelude::*;

verus! {

/// Class probabilities with the shape of the tensor they came from.
#[derive(Clone, Debug)]
pub struct Embedding<T> {
    pub data: Vec<T>,
    pub shape: Vec<usize>,
}

/// A detected box, corner-and-size format.
#[derive(Clone, Copy, Debug)]
pub struct Bbox<T> {
    pub xmin: T,
    pub ymin: T,
    pub width: T,
    pub height: T,
    pub id: usize,
    pub confidence: T,
}

/// A keypoint with its confidence.
#[derive(Clone, Copy, Debug)]
pub struct Point2<T> {
    pub x: T,
    pub y: T,
    pub confidence: T,
}

/// What the YOLO model returns for one image.
#[derive(Clone, Debug)]
pub struct YOLOResult<T> {
    pub probs: Option<Embedding<T>>,
    pub bboxes: Option<Vec<Bbox<T>>>,
    pub keypoints: Option<Vec<Vec<Point2<T>>>>,
    pub masks: Option<Vec<Vec<u8>>>,
}

/// Class probabilities as sent to callers.
#[derive(Clone, Debug)]
pub struct ProtoEmbedding<T> {
    pub data: Vec<T>,
    pub shape: Vec<i32>,
}

/// A box as sent to callers.
#[derive(Clone, Copy, Debug)]
pub struct ProtoBbox<T> {
    pub xmin: T,
    pub ymin: T,
    pub width: T,
    pub height: T,
    pub id: u32,
    pub confidence: T,
}

/// A keypoint as sent to callers.
#[derive(Clone, Copy, Debug)]
pub struct ProtoPoint2<T> {
    pub x: T,
    pub y: T,
    pub confidence: T,
}

/// The keypoints of one detection as sent to callers.
#[derive(Clone, Debug)]
pub struct ProtoKeypointSet<T> {
    pub points: Vec<ProtoPoint2<T>>,
}

/// The result of one image as sent to callers.
#[derive(Clone, Debug)]
pub struct ProtoYoloResult<T> {
    pub probs: Option<ProtoEmbedding<T>>,
    pub bboxes: Vec<ProtoBbox<T>>,
    pub keypoints: Vec<ProtoKeypointSet<T>>,
    pub masks: Vec<Vec<u8>>,
}

/// `e` carries the data of `p` and its shape, each extent cast to `i32`.
pub open spec fn embedding_sent<T>(p: Embedding<T>, e: ProtoEmbedding<T>) -> bool {
    &&& e.data@ == p.data@
    &&& e.shape@.len() == p.shape@.len()
    &&& forall|i: int| 0 <= i < p.shape@.len() ==> #[trigger] e.shape@[i] == p.shape@[i] as i32
}

/// `o` carries the fields of `b`, the class id cast to `u32`.
pub open spec fn bbox_sent<T>(b: Bbox<T>, o: ProtoBbox<T>) -> bool {
    &&& o.xmin == b.xmin
    &&& o.ymin == b.ymin
    &&& o.width == b.width
    &&& o.height == b.height
    &&& o.id == b.id as u32
    &&& o.confidence == b.confidence
}

/// `s` carries the points of `pts`, in order.
pub open spec fn keypoints_sent<T>(pts: Seq<Point2<T>>, s: ProtoKeypointSet<T>) -> bool {
    &&& s.points@.len() == pts.len()
    &&& forall|i: int|
        0 <= i < pts.len() ==> {
            &&& (#[trigger] s.points@[i]).x == pts[i].x
            &&& s.points@[i].y == pts[i].y
            &&& s.points@[i].confidence == pts[i].confidence
        }
}

/// `out` holds the byte strings of `m`, in order.
pub open spec fn masks_sent(m: Seq<Vec<u8>>, out: Seq<Vec<u8>>) -> bool {
    &&& out.len() == m.len()
    &&& forall|i: int| 0 <= i < m.len() ==> (#[trigger] out[i])@ == m[i]@
}

fn copy_items<T: Copy>(v: &Vec<T>) -> (r: Vec<T>)
    ensures
        r@ == v@,
{
    let mut r: Vec<T> = Vec::new();
    let mut i: usize = 0;
    while i < v.len()
        invariant
            i <= v.len(),
            r@ == v@.subrange(0, i as int),
        decreases v.len() - i,
    {
        r.push(v[i]);
        i = i + 1;
    }
    assert(v@.subrange(0, v.len() as int) == v@);
    r
}

fn convert_embedding<T: Copy>(p: &Embedding<T>) -> (r: ProtoEmbedding<T>)
    ensures
        embedding_sent(*p, r),
{
    let data = copy_items(&p.data);
    let mut shape: Vec<i32> = Vec::new();
    let mut i: usize = 0;
    while i < p.shape.len()
        invariant
            i <= p.shape.len(),
            shape.len() == i,
            forall|j: int| 0 <= j < i ==> #[trigger] shape@[j] == p.shape@[j] as i32,
        decreases p.shape.len() - i,
    {
        shape.push(p.shape[i] as i32);
        i = i + 1;
    }
    ProtoEmbedding { data, shape }
}

fn convert_bboxes<T: Copy>(bs: &Vec<Bbox<T>>) -> (r: Vec<ProtoBbox<T>>)
    ensures
        r.len() == bs.len(),
        forall|i: int| 0 <= i < bs.len() ==> bbox_sent(bs@[i], #[trigger] r@[i]),
{
    let mut r: Vec<ProtoBbox<T>> = Vec::new();
    let mut i: usize = 0;
    while i < bs.len()
        invariant
            i <= bs.len(),
            r.len() == i,
            forall|j: int| 0 <= j < i ==> bbox_sent(bs@[j], #[trigger] r@[j]),
        decreases bs.len() - i,
    {
        let b = &bs[i];
        r.push(
            ProtoBbox {
                xmin: b.xmin,
                ymin: b.ymin,
                width: b.width,
                height: b.height,
                id: b.id as u32,
                confidence: b.confidence,
            },
        );
        i = i + 1;
    }
    r
}

fn convert_keypoints<T: Copy>(pts: &Vec<Point2<T>>) -> (r: ProtoKeypointSet<T>)
    ensures
        keypoints_sent(pts@, r),
{
    let mut points: Vec<ProtoPoint2<T>> = Vec::new();
    let mut i: usize = 0;
    while i < pts.len()
        invariant
            i <= pts.len(),
            points.len() == i,
            forall|j: int|
                0 <= j < i ==> {
                    &&& (#[trigger] points@[j]).x == pts@[j].x
                    &&& points@[j].y == pts@[j].y
                    &&& points@[j].confidence == pts@[j].confidence
                },
        decreases pts.len() - i,
    {
        let p = &pts[i];
        points.push(ProtoPoint2 { x: p.x, y: p.y, confidence: p.confidence });
        i = i + 1;
    }
    ProtoKeypointSet { points }
}

fn convert_keypoint_sets<T: Copy>(sets: &Vec<Vec<Point2<T>>>) -> (r: Vec<ProtoKeypointSet<T>>)
    ensures
        r.len() == sets.len(),
        forall|i: int| 0 <= i < sets.len() ==> keypoints_sent(sets@[i]@, #[trigger] r@[i]),
{
    let mut r: Vec<ProtoKeypointSet<T>> = Vec::new();
    let mut i: usize = 0;
    while i < sets.len()
        invariant
            i <= sets.len(),
            r.len() == i,
            forall|j: int| 0 <= j < i ==> keypoints_sent(sets@[j]@, #[trigger] r@[j]),
        decreases sets.len() - i,
    {
        r.push(convert_keypoints(&sets[i]));
        i = i + 1;
    }
    r
}

fn copy_masks(m: &Vec<Vec<u8>>) -> (r: Vec<Vec<u8>>)
    ensures
        masks_sent(m@, r@),
{
    let mut r: Vec<Vec<u8>> = Vec::new();
    let mut i: usize = 0;
    while i < m.len()
        invariant
            i <= m.len(),
            r.len() == i,
            forall|j: int| 0 <= j < i ==> (#[trigger] r@[j])@ == m@[j]@,
        decreases m.len() - i,
    {
        r.push(copy_items(&m[i]));
        i = i + 1;
    }
    r
}

/// Converts a model result into the message sent to callers: probabilities
/// with their shape, boxes and keypoint sets in order, and masks; a part the
/// model did not produce becomes absent or empty.
pub fn convert_yolo_result<T: Copy>(internal: &YOLOResult<T>) -> (r: ProtoYoloResult<T>)
    ensures
        match internal.probs {
            Some(p) => r.probs matches Some(e) && embedding_sent(p, e),
            None => r.probs is None,
        },
        match internal.bboxes {
            Some(bs) => r.bboxes.len() == bs.len() && forall|i: int|
                0 <= i < bs.len() ==> bbox_sent(bs@[i], #[trigger] r.bboxes@[i]),
            None => r.bboxes.len() == 0,
        },
        match internal.keypoints {
            Some(ks) => r.keypoints.len() == ks.len() && forall|i: int|
                0 <= i < ks.len() ==> keypoints_sent(ks@[i]@, #[trigger] r.keypoints@[i]),
            None => r.keypoints.len() == 0,
        },
        match internal.masks {
            Some(m) => masks_sent(m@, r.masks@),
            None => r.masks.len() == 0,
        },
{
    let probs = match &internal.probs {
        Some(p) => Some(convert_embedding(p)),
        None => None,
    };
    let bboxes = match &internal.bboxes {
        Some(bs) => convert_bboxes(bs),
        None => Vec::new(),
    };
    let keypoints = match &internal.keypoints {
        Some(ks) => convert_keypoint_sets(ks),
        None => Vec::new(),
    };
    let masks = match &internal.masks {
        Some(m) => copy_masks(m),
        None => Vec::new(),
    };
    ProtoYoloResult { probs, bboxes, keypoints, masks }
}

} // verus!
