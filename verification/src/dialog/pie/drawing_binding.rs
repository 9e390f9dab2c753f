use vstd::prelude::*;

verus! {

/// How the pie dialog treats a drawing instruction that it is asked to draw
#[derive(Clone, Copy, PartialEq, Eq, Structural, Debug)]
pub enum DrawingKind {
    /// Part of a shape (paths, fills, strokes and their attributes): mapped onto the pie
    Shape,
    /// Pushes or pops the drawing state: kept with the shapes and also sent straight away
    State,
    /// Clears the canvas or a layer: the shapes drawn so far are dropped
    Clear,
    /// Declares a resource (sprites, textures, fonts, gradients): sent straight away
    Resource,
    /// Not supported on a pie: ignored
    Unsupported,
}

/// How a batch of drawing instructions is split up
pub struct DrawingSplit {
    /// Some instruction cleared the drawing
    pub cleared: bool,
    /// The positions of the instructions to map onto the pie, in order
    pub shapes: Vec<usize>,
    /// The positions of the instructions to send straight away, in order
    pub immediate: Vec<usize>,
}

/// Some instruction clears the drawing
pub open spec fn clears(kinds: Seq<DrawingKind>) -> bool {
    exists|i: int| 0 <= i < kinds.len() && kinds[i] == DrawingKind::Clear
}

/// The positions of the shape and state instructions that come after the last clear, in order
pub open spec fn shapes_after_clear(kinds: Seq<DrawingKind>) -> Seq<usize>
    decreases kinds.len(),
{
    if kinds.len() == 0 {
        Seq::empty()
    } else {
        let before = shapes_after_clear(kinds.drop_last());
        let last = (kinds.len() - 1) as usize;
        match kinds.last() {
            DrawingKind::Shape | DrawingKind::State => before.push(last),
            DrawingKind::Clear => Seq::empty(),
            _ => before,
        }
    }
}

/// The shapes kept from a batch are exactly its shape and state instructions that no clear
/// follows: each kept position holds a shape or state instruction that comes after every clear
/// in the batch, and each shape or state instruction after the last clear is kept
pub proof fn law_shapes_follow_the_last_clear(kinds: Seq<DrawingKind>)
    requires
        kinds.len() <= usize::MAX,
    ensures
        forall|i: int| #![trigger shapes_after_clear(kinds)[i]] 0 <= i < shapes_after_clear(kinds).len() ==> {
            let pos = shapes_after_clear(kinds)[i] as int;
            &&& 0 <= pos < kinds.len()
            &&& (kinds[pos] == DrawingKind::Shape || kinds[pos] == DrawingKind::State)
            &&& forall|j: int| 0 <= j < kinds.len() && #[trigger] kinds[j] == DrawingKind::Clear ==> j < pos
        },
        forall|pos: int| 0 <= pos < kinds.len()
            && (kinds[pos] == DrawingKind::Shape || kinds[pos] == DrawingKind::State)
            && (forall|j: int| pos < j < kinds.len() ==> #[trigger] kinds[j] != DrawingKind::Clear)
            ==> #[trigger] shapes_after_clear(kinds).contains(pos as usize),
    decreases kinds.len(),
{
    if kinds.len() > 0 {
        let rest = kinds.drop_last();
        law_shapes_follow_the_last_clear(rest);
        let before = shapes_after_clear(rest);
        let last = kinds.len() - 1;
        let shapes = shapes_after_clear(kinds);
        assert forall|j: int| 0 <= j < rest.len() implies rest[j] == kinds[j] by {}
        match kinds.last() {
            DrawingKind::Shape | DrawingKind::State => {
                assert(shapes == before.push(last as usize));
                assert forall|i: int| #![trigger shapes[i]] 0 <= i < shapes.len() implies ({
                    let pos = shapes[i] as int;
                    &&& 0 <= pos < kinds.len()
                    &&& (kinds[pos] == DrawingKind::Shape || kinds[pos] == DrawingKind::State)
                    &&& forall|j: int| 0 <= j < kinds.len() && #[trigger] kinds[j] == DrawingKind::Clear ==> j < pos
                }) by {
                    if i < before.len() {
                        assert(shapes[i] == before[i]);
                        let pos = before[i] as int;
                        assert(0 <= pos < rest.len());
                        assert(rest[pos] == kinds[pos]);
                        assert forall|j: int| 0 <= j < kinds.len() && #[trigger] kinds[j] == DrawingKind::Clear implies j < pos by {
                            if j < rest.len() {
                                assert(rest[j] == DrawingKind::Clear);
                            }
                        }
                    }
                }
                assert forall|pos: int| 0 <= pos < kinds.len()
                    && (kinds[pos] == DrawingKind::Shape || kinds[pos] == DrawingKind::State)
                    && (forall|j: int| pos < j < kinds.len() ==> #[trigger] kinds[j] != DrawingKind::Clear)
                    implies #[trigger] shapes.contains(pos as usize) by {
                    if pos == last {
                        assert(shapes[before.len() as int] == pos as usize);
                    } else {
                        assert(rest[pos] == kinds[pos]);
                        assert forall|j: int| pos < j < rest.len() implies #[trigger] rest[j] != DrawingKind::Clear by {
                            assert(kinds[j] != DrawingKind::Clear);
                        }
                        assert(before.contains(pos as usize));
                        let x = choose|x: int| 0 <= x < before.len() && before[x] == pos as usize;
                        assert(shapes[x] == pos as usize);
                    }
                }
            },
            DrawingKind::Clear => {
                assert(shapes.len() == 0);
                assert forall|pos: int| 0 <= pos < kinds.len()
                    && (kinds[pos] == DrawingKind::Shape || kinds[pos] == DrawingKind::State)
                    && (forall|j: int| pos < j < kinds.len() ==> #[trigger] kinds[j] != DrawingKind::Clear)
                    implies #[trigger] shapes.contains(pos as usize) by {
                    assert(kinds[last] == DrawingKind::Clear);
                }
            },
            _ => {
                assert(shapes == before);
                assert forall|i: int| #![trigger shapes[i]] 0 <= i < shapes.len() implies ({
                    let pos = shapes[i] as int;
                    &&& 0 <= pos < kinds.len()
                    &&& (kinds[pos] == DrawingKind::Shape || kinds[pos] == DrawingKind::State)
                    &&& forall|j: int| 0 <= j < kinds.len() && #[trigger] kinds[j] == DrawingKind::Clear ==> j < pos
                }) by {
                    let pos = before[i] as int;
                    assert(0 <= pos < rest.len());
                    assert(rest[pos] == kinds[pos]);
                    assert forall|j: int| 0 <= j < kinds.len() && #[trigger] kinds[j] == DrawingKind::Clear implies j < pos by {
                        if j < rest.len() {
                            assert(rest[j] == DrawingKind::Clear);
                        }
                    }
                }
                assert forall|pos: int| 0 <= pos < kinds.len()
                    && (kinds[pos] == DrawingKind::Shape || kinds[pos] == DrawingKind::State)
                    && (forall|j: int| pos < j < kinds.len() ==> #[trigger] kinds[j] != DrawingKind::Clear)
                    implies #[trigger] shapes.contains(pos as usize) by {
                    assert(pos != last);
                    assert(rest[pos] == kinds[pos]);
                    assert forall|j: int| pos < j < rest.len() implies #[trigger] rest[j] != DrawingKind::Clear by {
                        assert(kinds[j] != DrawingKind::Clear);
                    }
                }
            },
        }
    }
}

/// The positions of the state and resource instructions, in order
pub open spec fn immediate_instructions(kinds: Seq<DrawingKind>) -> Seq<usize>
    decreases kinds.len(),
{
    if kinds.len() == 0 {
        Seq::empty()
    } else {
        let before = immediate_instructions(kinds.drop_last());
        let last = (kinds.len() - 1) as usize;
        match kinds.last() {
            DrawingKind::State | DrawingKind::Resource => before.push(last),
            _ => before,
        }
    }
}

/// Splits up a batch of drawing instructions (given by their kinds): the shapes to map onto the
/// pie (those after the last clear), the instructions to send straight away, and whether the
/// batch cleared the drawing
pub fn split_drawing(kinds: &Vec<DrawingKind>) -> (split: DrawingSplit)
    ensures
        split.cleared == clears(kinds@),
        split.shapes@ == shapes_after_clear(kinds@),
        split.immediate@ == immediate_instructions(kinds@),
{
    let mut cleared = false;
    let mut shapes: Vec<usize> = Vec::new();
    let mut immediate: Vec<usize> = Vec::new();
    let mut idx: usize = 0;
    while idx < kinds.len()
        invariant
            idx <= kinds.len(),
            cleared == clears(kinds@.take(idx as int)),
            shapes@ == shapes_after_clear(kinds@.take(idx as int)),
            immediate@ == immediate_instructions(kinds@.take(idx as int)),
        decreases kinds.len() - idx,
    {
        let kind = kinds[idx];
        let ghost prefix = kinds@.take(idx + 1);
        assert(prefix.drop_last() =~= kinds@.take(idx as int));
        assert(prefix.last() == kind);
        match kind {
            DrawingKind::Shape => {
                shapes.push(idx);
            },
            DrawingKind::State => {
                shapes.push(idx);
                immediate.push(idx);
            },
            DrawingKind::Clear => {
                cleared = true;
                shapes.clear();
            },
            DrawingKind::Resource => {
                immediate.push(idx);
            },
            DrawingKind::Unsupported => {},
        }
        proof {
            if kind == DrawingKind::Clear {
                assert(prefix[idx as int] == DrawingKind::Clear);
            } else {
                assert(clears(prefix) == clears(kinds@.take(idx as int))) by {
                    if clears(prefix) {
                        let i = choose|i: int| 0 <= i < prefix.len() && prefix[i] == DrawingKind::Clear;
                        assert(kinds@.take(idx as int)[i] == DrawingKind::Clear);
                    }
                    if clears(kinds@.take(idx as int)) {
                        let i = choose|i: int| 0 <= i < idx && kinds@.take(idx as int)[i] == DrawingKind::Clear;
                        assert(prefix[i] == DrawingKind::Clear);
                    }
                }
            }
        }
        idx = idx + 1;
    }
    assert(kinds@.take(kinds.len() as int) =~= kinds@);
    DrawingSplit { cleared: cleared, shapes: shapes, immediate: immediate }
}

} // verus!
