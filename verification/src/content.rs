use vstd::prelude::*;

use crate::text::str_eq;

verus! {

/// How the redaction pass treats a content-stream operator.
#[derive(Clone, Copy, Debug, PartialEq, Eq, Structural)]
pub enum OpKind {
    /// `q`
    SaveState,
    /// `Q`
    RestoreState,
    /// `cm`
    ConcatMatrix,
    /// `BT`
    BeginText,
    /// `ET`
    EndText,
    /// `Tm`
    SetTextMatrix,
    /// `Td`
    MoveText,
    /// `TD`
    MoveTextSetLeading,
    /// `T*`
    NextLine,
    /// `Tf`
    SetFont,
    /// `Tc`
    SetCharSpacing,
    /// `Tw`
    SetWordSpacing,
    /// `Tz`
    SetHorizontalScale,
    /// `TL`
    SetLeading,
    /// `Ts`
    SetRise,
    /// `'`
    NextLineShowText,
    /// `"`
    NextLineShowTextSpaced,
    /// `Tj`
    ShowText,
    /// `TJ`
    ShowTextArray,
    /// `m`
    MoveTo,
    /// `l`
    LineTo,
    /// `c`
    CurveTo,
    /// `v`
    CurveToInitial,
    /// `y`
    CurveToFinal,
    /// `re`
    Rectangle,
    /// `h`
    ClosePath,
    /// `W`, `W*`
    Clip,
    /// `S`, `s`, `f`, `F`, `f*`, `B`, `B*`, `b`, `b*`
    PaintPath,
    /// `n`
    EndPath,
    /// `Do`
    PaintXObject,
    /// `rg`
    SetRgbFill,
    /// `g`
    SetGrayFill,
    /// `k`
    SetCmykFill,
    /// Any other operator.
    Other,
}

impl OpKind {
    /// Whether the operator adds a segment or shape to the current path.
    pub open spec fn spec_is_path_construction(self) -> bool {
        match self {
            OpKind::MoveTo | OpKind::LineTo | OpKind::CurveTo | OpKind::CurveToInitial
            | OpKind::CurveToFinal | OpKind::Rectangle | OpKind::ClosePath => true,
            _ => false,
        }
    }

    /// Whether the operator adds a segment or shape to the current path.
    pub fn is_path_construction(&self) -> (r: bool)
        ensures
            r == self.spec_is_path_construction(),
    {
        match self {
            OpKind::MoveTo | OpKind::LineTo | OpKind::CurveTo | OpKind::CurveToInitial
            | OpKind::CurveToFinal | OpKind::Rectangle | OpKind::ClosePath => true,
            _ => false,
        }
    }

    /// Whether the operator shows text.
    pub open spec fn spec_is_text_show(self) -> bool {
        match self {
            OpKind::ShowText | OpKind::ShowTextArray | OpKind::NextLineShowText
            | OpKind::NextLineShowTextSpaced => true,
            _ => false,
        }
    }

    /// Whether the operator shows text.
    pub fn is_text_show(&self) -> (r: bool)
        ensures
            r == self.spec_is_text_show(),
    {
        match self {
            OpKind::ShowText | OpKind::ShowTextArray | OpKind::NextLineShowText
            | OpKind::NextLineShowTextSpaced => true,
            _ => false,
        }
    }
}

/// The kind of the operator spelled `op`.
pub open spec fn spec_op_kind(op: Seq<char>) -> OpKind {
    if op == "q"@ {
        OpKind::SaveState
    } else if op == "Q"@ {
        OpKind::RestoreState
    } else if op == "cm"@ {
        OpKind::ConcatMatrix
    } else if op == "BT"@ {
        OpKind::BeginText
    } else if op == "ET"@ {
        OpKind::EndText
    } else if op == "Tm"@ {
        OpKind::SetTextMatrix
    } else if op == "Td"@ {
        OpKind::MoveText
    } else if op == "TD"@ {
        OpKind::MoveTextSetLeading
    } else if op == "T*"@ {
        OpKind::NextLine
    } else if op == "Tf"@ {
        OpKind::SetFont
    } else if op == "Tc"@ {
        OpKind::SetCharSpacing
    } else if op == "Tw"@ {
        OpKind::SetWordSpacing
    } else if op == "Tz"@ {
        OpKind::SetHorizontalScale
    } else if op == "TL"@ {
        OpKind::SetLeading
    } else if op == "Ts"@ {
        OpKind::SetRise
    } else if op == "'"@ {
        OpKind::NextLineShowText
    } else if op == "\""@ {
        OpKind::NextLineShowTextSpaced
    } else if op == "Tj"@ {
        OpKind::ShowText
    } else if op == "TJ"@ {
        OpKind::ShowTextArray
    } else if op == "m"@ {
        OpKind::MoveTo
    } else if op == "l"@ {
        OpKind::LineTo
    } else if op == "c"@ {
        OpKind::CurveTo
    } else if op == "v"@ {
        OpKind::CurveToInitial
    } else if op == "y"@ {
        OpKind::CurveToFinal
    } else if op == "re"@ {
        OpKind::Rectangle
    } else if op == "h"@ {
        OpKind::ClosePath
    } else if op == "W"@ || op == "W*"@ {
        OpKind::Clip
    } else if op == "S"@ || op == "s"@ || op == "f"@ || op == "F"@ || op == "f*"@ || op == "B"@
        || op == "B*"@ || op == "b"@ || op == "b*"@ {
        OpKind::PaintPath
    } else if op == "n"@ {
        OpKind::EndPath
    } else if op == "Do"@ {
        OpKind::PaintXObject
    } else if op == "rg"@ {
        OpKind::SetRgbFill
    } else if op == "g"@ {
        OpKind::SetGrayFill
    } else if op == "k"@ {
        OpKind::SetCmykFill
    } else {
        OpKind::Other
    }
}

/// Classifies a content-stream operator by its name.
pub fn op_kind(op: &str) -> (r: OpKind)
    ensures
        r == spec_op_kind(op@),
{
    if str_eq(op, "q") {
        OpKind::SaveState
    } else if str_eq(op, "Q") {
        OpKind::RestoreState
    } else if str_eq(op, "cm") {
        OpKind::ConcatMatrix
    } else if str_eq(op, "BT") {
        OpKind::BeginText
    } else if str_eq(op, "ET") {
        OpKind::EndText
    } else if str_eq(op, "Tm") {
        OpKind::SetTextMatrix
    } else if str_eq(op, "Td") {
        OpKind::MoveText
    } else if str_eq(op, "TD") {
        OpKind::MoveTextSetLeading
    } else if str_eq(op, "T*") {
        OpKind::NextLine
    } else if str_eq(op, "Tf") {
        OpKind::SetFont
    } else if str_eq(op, "Tc") {
        OpKind::SetCharSpacing
    } else if str_eq(op, "Tw") {
        OpKind::SetWordSpacing
    } else if str_eq(op, "Tz") {
        OpKind::SetHorizontalScale
    } else if str_eq(op, "TL") {
        OpKind::SetLeading
    } else if str_eq(op, "Ts") {
        OpKind::SetRise
    } else if str_eq(op, "'") {
        OpKind::NextLineShowText
    } else if str_eq(op, "\"") {
        OpKind::NextLineShowTextSpaced
    } else if str_eq(op, "Tj") {
        OpKind::ShowText
    } else if str_eq(op, "TJ") {
        OpKind::ShowTextArray
    } else if str_eq(op, "m") {
        OpKind::MoveTo
    } else if str_eq(op, "l") {
        OpKind::LineTo
    } else if str_eq(op, "c") {
        OpKind::CurveTo
    } else if str_eq(op, "v") {
        OpKind::CurveToInitial
    } else if str_eq(op, "y") {
        OpKind::CurveToFinal
    } else if str_eq(op, "re") {
        OpKind::Rectangle
    } else if str_eq(op, "h") {
        OpKind::ClosePath
    } else if str_eq(op, "W") || str_eq(op, "W*") {
        OpKind::Clip
    } else if str_eq(op, "S") || str_eq(op, "s") || str_eq(op, "f") || str_eq(op, "F") || str_eq(
        op,
        "f*",
    ) || str_eq(op, "B") || str_eq(op, "B*") || str_eq(op, "b") || str_eq(op, "b*") {
        OpKind::PaintPath
    } else if str_eq(op, "n") {
        OpKind::EndPath
    } else if str_eq(op, "Do") {
        OpKind::PaintXObject
    } else if str_eq(op, "rg") {
        OpKind::SetRgbFill
    } else if str_eq(op, "g") {
        OpKind::SetGrayFill
    } else if str_eq(op, "k") {
        OpKind::SetCmykFill
    } else {
        OpKind::Other
    }
}

/// The items at the positions marked `true`, in order.
pub open spec fn kept_items<T>(items: Seq<T>, keep: Seq<bool>) -> Seq<T>
    decreases items.len(),
{
    if items.len() == 0 {
        Seq::empty()
    } else {
        let rest = kept_items(items.drop_last(), keep);
        if keep[items.len() - 1] {
            rest.push(items.last())
        } else {
            rest
        }
    }
}

/// Each item paired with its mark.
pub open spec fn marked<T>(items: Seq<T>, keep: Seq<bool>) -> Seq<(T, bool)> {
    Seq::new(items.len(), |i: int| (items[i], keep[i]))
}

proof fn lemma_kept_is_filter<T>(items: Seq<T>, keep: Seq<bool>)
    requires
        items.len() <= keep.len(),
    ensures
        kept_items(items, keep) == marked(items, keep).filter(|p: (T, bool)| p.1).map_values(
            |p: (T, bool)| p.0,
        ),
    decreases items.len(),
{
    reveal(Seq::filter);
    let z = marked(items, keep);
    let f = |p: (T, bool)| p.1;
    let g = |p: (T, bool)| p.0;
    if items.len() == 0 {
        assert(z =~= Seq::<(T, bool)>::empty());
        assert(z.filter(f) =~= Seq::<(T, bool)>::empty());
        assert(z.filter(f).map_values(g) =~= Seq::<T>::empty());
    } else {
        lemma_kept_is_filter(items.drop_last(), keep);
        assert(marked(items.drop_last(), keep) =~= z.drop_last());
        assert(z.last() == (items.last(), keep[items.len() - 1]));
        if keep[items.len() - 1] {
            assert(z.filter(f).map_values(g) =~= z.drop_last().filter(f).map_values(g).push(
                items.last(),
            ));
        } else {
            assert(z.filter(f) == z.drop_last().filter(f));
        }
    }
}

proof fn lemma_filter_count<T>(z: Seq<(T, bool)>)
    ensures
        z.filter(|p: (T, bool)| p.1).len() == z.map_values(|p: (T, bool)| p.1).filter(|b: bool| b).len(),
    decreases z.len(),
{
    reveal(Seq::filter);
    if z.len() > 0 {
        lemma_filter_count(z.drop_last());
        assert(z.map_values(|p: (T, bool)| p.1).drop_last() =~= z.drop_last().map_values(
            |p: (T, bool)| p.1,
        ));
    }
}

proof fn lemma_kept_all<T>(items: Seq<T>, keep: Seq<bool>)
    requires
        items.len() <= keep.len(),
        forall|i: int| 0 <= i < keep.len() ==> keep[i],
    ensures
        kept_items(items, keep) == items,
    decreases items.len(),
{
    if items.len() > 0 {
        lemma_kept_all(items.drop_last(), keep);
        assert(keep[items.len() - 1]);
        assert(items.drop_last().push(items.last()) =~= items);
    } else {
        assert(items =~= Seq::<T>::empty());
    }
}

/// Keeping the marked items keeps exactly the items whose mark is `true`,
/// in their order: the result is the list of pairs (item, mark) with the
/// `false` ones filtered out, and the marks dropped. So it has as many
/// items as there are `true` marks, and with every mark `true` it is the
/// whole input.
pub proof fn law_keep_marked_filters<T>(items: Seq<T>, keep: Seq<bool>)
    requires
        items.len() == keep.len(),
    ensures
        kept_items(items, keep) == marked(items, keep).filter(|p: (T, bool)| p.1).map_values(
            |p: (T, bool)| p.0,
        ),
        kept_items(items, keep).len() == keep.filter(|b: bool| b).len(),
        (forall|i: int| 0 <= i < keep.len() ==> keep[i]) ==> kept_items(items, keep) == items,
{
    lemma_kept_is_filter(items, keep);
    let z = marked(items, keep);
    lemma_filter_count(z);
    assert(z.map_values(|p: (T, bool)| p.1) =~= keep);
    if forall|i: int| 0 <= i < keep.len() ==> keep[i] {
        lemma_kept_all(items, keep);
    }
}

/// Keeps the items whose mark is `true`, in order.
pub fn keep_marked<T>(items: Vec<T>, keep: &Vec<bool>) -> (r: Vec<T>)
    requires
        items@.len() == keep@.len(),
    ensures
        r@ == kept_items(items@, keep@),
        r@ == marked(items@, keep@).filter(|p: (T, bool)| p.1).map_values(|p: (T, bool)| p.0),
        r@.len() == keep@.filter(|b: bool| b).len(),
{
    proof {
        law_keep_marked_filters(items@, keep@);
    }
    let ghost all = items@;
    let n = keep.len();
    let mut out: Vec<T> = Vec::new();
    let mut i: usize = 0;
    for item in it: items.into_iter()
        invariant
            i == it.index(),
            it.seq() == all,
            all.len() == keep@.len(),
            keep@.len() == n,
            i <= all.len(),
            out@ == kept_items(all.take(i as int), keep@),
    {
        assert(all.take(i + 1).drop_last() =~= all.take(i as int));
        if keep[i] {
            out.push(item);
        }
        i = i + 1;
    }
    assert(all.take(all.len() as int) =~= all);
    out
}

/// Whether position `i` is among the first `k` entries of `path`.
pub open spec fn among(path: Seq<usize>, k: int, i: int) -> bool {
    exists|j: int| 0 <= j < k && j < path.len() && #[trigger] path[j] as int == i
}

/// Which of the operators written so far are kept, and which of them
/// build the current path (the path operators since the last painting,
/// clipping or ending of a path).
pub struct PathFilter {
    keep: Vec<bool>,
    path: Vec<usize>,
}

impl PathFilter {
    /// Whether each operator written so far is kept.
    pub closed spec fn kept(&self) -> Seq<bool> {
        self.keep@
    }

    /// Positions of the operators that build the current path.
    pub closed spec fn path(&self) -> Seq<usize> {
        self.path@
    }

    /// The current path's operators have been written, in order.
    pub closed spec fn wf(&self) -> bool {
        &&& forall|k: int| 0 <= k < self.path@.len() ==> self.path@[k] < self.keep@.len()
        &&& forall|k: int, l: int| 0 <= k < l < self.path@.len() ==> self.path@[k] < self.path@[l]
    }

    /// In a well-formed filter, the current path lists operators already
    /// written, each once, in the order they were written.
    pub proof fn lemma_wf_path(&self)
        requires
            self.wf(),
        ensures
            forall|k: int| 0 <= k < self.path().len() ==> #[trigger] self.path()[k] < self.kept().len(),
            forall|k: int, l: int|
                0 <= k < l < self.path().len() ==> #[trigger] self.path()[k] < #[trigger] self.path()[l],
    {
    }

    /// Nothing written yet.
    pub fn new() -> (r: PathFilter)
        ensures
            r.kept() == Seq::<bool>::empty(),
            r.path() == Seq::<usize>::empty(),
            r.wf(),
    {
        PathFilter { keep: Vec::new(), path: Vec::new() }
    }

    /// How many operators have been written.
    pub fn len(&self) -> (r: usize)
        ensures
            r == self.kept().len(),
    {
        self.keep.len()
    }

    /// Writes an operator that is kept and does not build the path.
    pub fn keep_op(&mut self)
        requires
            old(self).wf(),
        ensures
            final(self).wf(),
            final(self).kept() == old(self).kept().push(true),
            final(self).path() == old(self).path(),
    {
        self.keep.push(true);
    }

    /// Writes an operator that builds the current path.
    pub fn path_op(&mut self)
        requires
            old(self).wf(),
        ensures
            final(self).wf(),
            final(self).kept() == old(self).kept().push(true),
            final(self).path() == old(self).path().push(old(self).kept().len() as usize),
    {
        let idx = self.keep.len();
        self.keep.push(true);
        self.path.push(idx);
        assert forall|k: int| 0 <= k < self.path@.len() implies self.path@[k] < self.keep@.len() by {
            if k < old(self).path@.len() {
                assert(self.path@[k] == old(self).path@[k]);
            }
        }
        assert forall|k: int, l: int| 0 <= k < l < self.path@.len() implies self.path@[k] < self.path@[l] by {
            assert(self.path@[k] == old(self).path@[k]);
            if l < old(self).path@.len() {
                assert(self.path@[l] == old(self).path@[l]);
            }
        }
    }

    /// Starts a new path, keeping the operators of the current one.
    pub fn clear_path(&mut self)
        requires
            old(self).wf(),
        ensures
            final(self).wf(),
            final(self).kept() == old(self).kept(),
            final(self).path() == Seq::<usize>::empty(),
    {
        self.path.clear();
    }

    /// Drops every operator of the current path and starts a new one.
    pub fn drop_path(&mut self)
        requires
            old(self).wf(),
        ensures
            final(self).wf(),
            final(self).path() == Seq::<usize>::empty(),
            final(self).kept().len() == old(self).kept().len(),
            forall|i: int|
                0 <= i < old(self).kept().len() ==> final(self).kept()[i] == (old(self).kept()[i]
                    && !among(old(self).path(), old(self).path().len() as int, i)),
    {
        let ghost before = self.keep@;
        let mut k: usize = 0;
        while k < self.path.len()
            invariant
                forall|j: int| 0 <= j < self.path@.len() ==> self.path@[j] < self.keep@.len(),
                self.path@ == old(self).path@,
                self.keep@.len() == before.len(),
                before == old(self).keep@,
                k <= self.path@.len(),
                forall|i: int|
                    0 <= i < before.len() ==> #[trigger] self.keep@[i] == (before[i] && !among(
                        self.path@,
                        k as int,
                        i,
                    )),
            decreases self.path.len() - k,
        {
            let idx = self.path[k];
            assert(idx < self.keep@.len());
            self.keep.set(idx, false);
            proof {
                assert forall|i: int| 0 <= i < before.len() implies #[trigger] self.keep@[i] == (
                before[i] && !among(self.path@, k + 1, i)) by {
                    if i == idx as int {
                        assert(self.path@[k as int] as int == i);
                    } else {
                        if among(self.path@, k + 1, i) {
                            let j = choose|j: int| 0 <= j < k + 1 && j < self.path@.len() && #[trigger] self.path@[j] as int == i;
                            assert(j < k);
                        }
                    }
                }
            }
            k = k + 1;
        }
        self.path.clear();
    }

    /// Ends the stream: a path left unpainted is dropped. Tells whether
    /// one was.
    pub fn finish(&mut self) -> (r: bool)
        requires
            old(self).wf(),
        ensures
            final(self).wf(),
            r == (old(self).path().len() > 0),
            final(self).path() == Seq::<usize>::empty(),
            final(self).kept().len() == old(self).kept().len(),
            forall|i: int|
                0 <= i < old(self).kept().len() ==> final(self).kept()[i] == (old(self).kept()[i]
                    && !among(old(self).path(), old(self).path().len() as int, i)),
    {
        if self.path.len() > 0 {
            self.drop_path();
            true
        } else {
            proof {
                assert(old(self).path() =~= Seq::<usize>::empty());
            }
            false
        }
    }

    /// The marks of all operators written.
    pub fn into_marks(self) -> (r: Vec<bool>)
        ensures
            r@ == self.kept(),
    {
        self.keep
    }
}

} // verus!
