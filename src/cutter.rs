use vstd::prelude::*;

use crate::decimal::{decimal, push_decimal};
use crate::timestamp::{offset_millis, render, TimeStamp};

verus! {

/// `t` inserted into `sorted` after every element whose offset is at most that of `t`.
pub open spec fn insert_sorted(sorted: Seq<TimeStamp>, t: TimeStamp) -> Seq<TimeStamp>
    decreases sorted.len(),
{
    if sorted.len() == 0 {
        seq![t]
    } else if offset_millis(sorted.last()) <= offset_millis(t) {
        sorted.push(t)
    } else {
        insert_sorted(sorted.drop_last(), t).push(sorted.last())
    }
}

/// `s` in ascending order of offset; timestamps with equal offsets keep their
/// order in `s`.
pub open spec fn sort_stable(s: Seq<TimeStamp>) -> Seq<TimeStamp>
    decreases s.len(),
{
    if s.len() == 0 {
        s
    } else {
        insert_sorted(sort_stable(s.drop_last()), s.last())
    }
}

/// Whether `s` is in ascending order of offset.
pub open spec fn is_sorted(s: Seq<TimeStamp>) -> bool {
    forall|i: int, j: int| 0 <= i < j < s.len() ==> offset_millis(s[i]) <= offset_millis(s[j])
}

/// Inserting at the first position whose element lies after `t`, past all that
/// do not, is what `insert_sorted` does.
proof fn lemma_insert_at(s: Seq<TimeStamp>, t: TimeStamp, p: int)
    requires
        0 <= p <= s.len(),
        forall|j: int| p <= j < s.len() ==> offset_millis(s[j]) > offset_millis(t),
        p == 0 || offset_millis(s[p - 1]) <= offset_millis(t),
    ensures
        insert_sorted(s, t) == s.insert(p, t),
    decreases s.len(),
{
    if s.len() == 0 {
        assert(s.insert(p, t) =~= seq![t]);
    } else if p == s.len() {
        assert(s.insert(p, t) =~= s.push(t));
    } else {
        let d = s.drop_last();
        lemma_insert_at(d, t, p);
        assert(s.insert(p, t) =~= d.insert(p, t).push(s.last()));
    }
}

/// The offset of `t` in milliseconds.
fn offset_key(t: &TimeStamp) -> (r: u64)
    ensures
        r == offset_millis(*t),
{
    ((t.hour as u64 * 60 + t.minute as u64) * 60 + t.second as u64) * 1000 + t.millis as u64
}

/// Sorts timestamps in ascending order of offset, keeping the order of equal ones.
pub fn sort_timestamps(v: &Vec<TimeStamp>) -> (r: Vec<TimeStamp>)
    ensures
        r@ == sort_stable(v@),
{
    let mut r: Vec<TimeStamp> = Vec::new();
    let mut i: usize = 0;
    while i < v.len()
        invariant
            i <= v@.len(),
            r@ == sort_stable(v@.take(i as int)),
        decreases v@.len() - i,
    {
        let t = v[i];
        let kt = offset_key(&t);
        let mut p = r.len();
        while p > 0 && offset_key(&r[p - 1]) > kt
            invariant
                p <= r@.len(),
                kt == offset_millis(t),
                forall|j: int| p <= j < r@.len() ==> offset_millis(r@[j]) > offset_millis(t),
            decreases p,
        {
            p = p - 1;
        }
        proof {
            lemma_insert_at(r@, t, p as int);
            assert(v@.take(i + 1).drop_last() == v@.take(i as int));
        }
        r.insert(p, t);
        i = i + 1;
    }
    assert(v@.take(v@.len() as int) == v@);
    r
}

/// What the external tool is asked to do for one segment.
pub struct CutInstruction {
    /// The media file to cut.
    pub input: String,
    /// Where the segment starts, as `H:M:S.mmm`.
    pub from: String,
    /// Where the segment ends; none for the segment that runs to the end.
    pub to: Option<String>,
    /// The name of the file to write.
    pub output: String,
}

/// A cut instruction with its texts as character sequences.
pub struct CutView {
    pub input: Seq<char>,
    pub from: Seq<char>,
    pub to: Option<Seq<char>>,
    pub output: Seq<char>,
}

impl View for CutInstruction {
    type V = CutView;

    open spec fn view(&self) -> CutView {
        CutView {
            input: self.input@,
            from: self.from@,
            to: match self.to {
                Some(s) => Some(s@),
                None => None,
            },
            output: self.output@,
        }
    }
}

/// The views of a sequence of cut instructions.
pub open spec fn cut_views(v: Seq<CutInstruction>) -> Seq<CutView> {
    v.map_values(|c: CutInstruction| c@)
}

/// The timestamp at the start of the media.
pub open spec fn zero() -> TimeStamp {
    TimeStamp { hour: 0, minute: 0, second: 0, millis: 0 }
}

/// The name of the `index`-th output file: `{index}.{extension}`.
pub open spec fn output_name(index: nat, extension: Seq<char>) -> Seq<char> {
    decimal(index) + seq!['.'] + extension
}

/// The text of the boundary that the `i`-th segment starts at.
pub open spec fn start_of(sorted: Seq<TimeStamp>, i: int) -> Seq<char> {
    if i == 0 {
        render(zero())
    } else {
        render(sorted[i - 1])
    }
}

/// The `i`-th instruction for boundaries `sorted`, counting from 0.
pub open spec fn cut_at(
    input: Seq<char>,
    sorted: Seq<TimeStamp>,
    extension: Seq<char>,
    i: int,
) -> CutView {
    CutView {
        input,
        from: start_of(sorted, i),
        to: if i < sorted.len() {
            Some(render(sorted[i]))
        } else {
            None
        },
        output: output_name((i + 1) as nat, extension),
    }
}

/// The instructions that cut `input` at `offsets`: one per segment between
/// consecutive boundaries in ascending order, starting at zero, and a last one
/// that runs to the end.
pub open spec fn plan_view(
    input: Seq<char>,
    offsets: Seq<TimeStamp>,
    extension: Seq<char>,
) -> Seq<CutView> {
    let sorted = sort_stable(offsets);
    Seq::new(sorted.len() + 1, |i: int| cut_at(input, sorted, extension, i))
}

/// Hands out the cut instructions for a set of boundaries one at a time, in
/// ascending order of offset whatever order the boundaries are given in.
pub struct Cutter {
    timestamps: Vec<TimeStamp>,
    index: usize,
    extension: String,
    input: String,
    prev: String,
    finished: bool,
}

impl Cutter {
    /// The boundaries not yet handed out, in the order they will be.
    pub closed spec fn remaining(&self) -> Seq<TimeStamp> {
        self.timestamps@
    }

    /// The number of the next output file.
    pub closed spec fn index(&self) -> nat {
        self.index as nat
    }

    /// Where the next segment starts.
    pub closed spec fn start(&self) -> Seq<char> {
        self.prev@
    }

    /// Whether the segment that runs to the end has been handed out.
    pub closed spec fn finished(&self) -> bool {
        self.finished
    }

    /// The media file being cut.
    pub closed spec fn input_spec(&self) -> Seq<char> {
        self.input@
    }

    /// The extension of the output files.
    pub closed spec fn extension_spec(&self) -> Seq<char> {
        self.extension@
    }

    /// The output numbers still to be handed out fit in a `usize`.
    pub closed spec fn wf(&self) -> bool {
        self.index + self.timestamps@.len() <= usize::MAX
    }

    /// The instructions still to be handed out, in order: one up to each
    /// remaining boundary, then one to the end; none once that has gone.
    pub open spec fn pending(&self) -> Seq<CutView> {
        if self.finished() {
            Seq::empty()
        } else {
            Seq::new(
                self.remaining().len() + 1,
                |i: int|
                    CutView {
                        input: self.input_spec(),
                        from: if i == 0 {
                            self.start()
                        } else {
                            render(self.remaining()[i - 1])
                        },
                        to: if i < self.remaining().len() {
                            Some(render(self.remaining()[i]))
                        } else {
                            None
                        },
                        output: output_name((self.index() + i) as nat, self.extension_spec()),
                    },
            )
        }
    }

    /// Starts cutting `input` at `timestamps`, which are taken in ascending
    /// order of offset, equal ones in the order given.
    pub fn new(input: String, timestamps: Vec<TimeStamp>, extension: String) -> (r: Self)
        requires
            timestamps@.len() < usize::MAX,
        ensures
            r.wf(),
            r.remaining() == sort_stable(timestamps@),
            r.index() == 1,
            r.start() == render(zero()),
            !r.finished(),
            r.input_spec() == input@,
            r.extension_spec() == extension@,
            r.pending() == plan_view(input@, timestamps@, extension@),
    {
        let sorted = sort_timestamps(&timestamps);
        proof {
            lemma_sort_keeps_length(timestamps@);
        }
        let start = TimeStamp { hour: 0, minute: 0, second: 0, millis: 0 };
        let r = Cutter {
            input,
            timestamps: sorted,
            index: 1,
            prev: start.get(),
            extension,
            finished: false,
        };
        assert(r.pending() =~= plan_view(r.input@, timestamps@, r.extension@));
        r
    }

    /// Hands out the next instruction: up to the next boundary while one is
    /// left, then once to the end; after that, none.
    pub fn next(&mut self) -> (r: Option<CutInstruction>)
        requires
            old(self).wf(),
        ensures
            final(self).wf(),
            final(self).input_spec() == old(self).input_spec(),
            final(self).extension_spec() == old(self).extension_spec(),
            r is None <==> old(self).pending().len() == 0,
            r is None ==> *final(self) == *old(self),
            r is Some ==> r->0@ == old(self).pending()[0],
            r is Some ==> final(self).pending() == old(self).pending().drop_first(),
    {
        if self.finished {
            return None;
        }
        let ghost before = self.pending();
        let mut output = String::new();
        push_decimal(&mut output, self.index as u64);
        output.append(".");
        output.append(self.extension.as_str());
        proof {
            reveal_strlit(".");
        }
        assert(output@ =~= output_name(self.index as nat, self.extension@));
        if self.timestamps.len() > 0 {
            let next = self.timestamps.remove(0);
            let to = next.get();
            let cut = CutInstruction {
                input: self.input.clone(),
                from: self.prev.clone(),
                to: Some(to.clone()),
                output,
            };
            self.prev = to;
            self.index = self.index + 1;
            assert(self.pending() =~= before.drop_first());
            Some(cut)
        } else {
            self.finished = true;
            assert(self.pending() =~= before.drop_first());
            Some(CutInstruction { input: self.input.clone(), from: self.prev.clone(), to: None, output })
        }
    }
}

/// Plans the cuts of `input` at `offsets`, in ascending order of offset
/// whatever order they are given in, naming output files `{n}.{extension}`.
pub fn plan(input: String, offsets: Vec<TimeStamp>, extension: String) -> (r: Vec<CutInstruction>)
    requires
        offsets@.len() < usize::MAX,
    ensures
        r@.len() == offsets@.len() + 1,
        cut_views(r@) == plan_view(input@, offsets@, extension@),
{
    let ghost pv = plan_view(input@, offsets@, extension@);
    let mut cutter = Cutter::new(input, offsets, extension);
    let mut out: Vec<CutInstruction> = Vec::new();
    let mut done = false;
    while !done
        invariant
            cutter.wf(),
            cut_views(out@) + cutter.pending() == pv,
            done ==> cutter.pending().len() == 0,
        decreases cutter.pending().len() + if done { 0nat } else { 1nat },
    {
        let ghost before = cutter.pending();
        match cutter.next() {
            Some(c) => {
                out.push(c);
                assert(cut_views(out@) + cutter.pending() =~= pv);
            },
            None => {
                done = true;
            },
        }
    }
    assert(cut_views(out@) =~= pv);
    proof {
        lemma_sort_keeps_length(offsets@);
    }
    out
}

/// Two cutters made from the same input, boundaries and extension hand out
/// the same instructions, one more than there are boundaries: each up to the
/// next boundary in ascending order, then one to the end.
pub proof fn lemma_cutter_deterministic(
    input: Seq<char>,
    offsets: Seq<TimeStamp>,
    extension: Seq<char>,
    first: Cutter,
    second: Cutter,
)
    requires
        first.pending() == plan_view(input, offsets, extension),
        second.pending() == plan_view(input, offsets, extension),
    ensures
        first.pending() == second.pending(),
        first.pending().len() == offsets.len() + 1,
        forall|i: int|
            0 <= i < offsets.len() ==> (#[trigger] first.pending()[i]).to == Some(
                render(sort_stable(offsets)[i]),
            ),
        first.pending()[offsets.len() as int].to is None,
{
    lemma_sort_keeps_length(offsets);
}

/// Sorting keeps the number of timestamps.
pub proof fn lemma_sort_keeps_length(s: Seq<TimeStamp>)
    ensures
        sort_stable(s).len() == s.len(),
    decreases s.len(),
{
    if s.len() > 0 {
        lemma_sort_keeps_length(s.drop_last());
        lemma_insert_keeps_length(sort_stable(s.drop_last()), s.last());
    }
}

/// Inserting adds one timestamp.
proof fn lemma_insert_keeps_length(s: Seq<TimeStamp>, t: TimeStamp)
    ensures
        insert_sorted(s, t).len() == s.len() + 1,
    decreases s.len(),
{
    if s.len() > 0 {
        lemma_insert_keeps_length(s.drop_last(), t);
    }
}

/// Every element of an insertion lies at or below `b` where `t` and all of
/// `s` do.
proof fn lemma_insert_bounded(s: Seq<TimeStamp>, t: TimeStamp, b: int)
    requires
        forall|i: int| 0 <= i < s.len() ==> offset_millis(#[trigger] s[i]) <= b,
        offset_millis(t) <= b,
    ensures
        forall|i: int|
            0 <= i < insert_sorted(s, t).len() ==> offset_millis(#[trigger] insert_sorted(s, t)[i])
                <= b,
    decreases s.len(),
{
    lemma_insert_keeps_length(s, t);
    if s.len() > 0 && offset_millis(s.last()) > offset_millis(t) {
        let d = s.drop_last();
        lemma_insert_bounded(d, t, b);
        assert forall|i: int| 0 <= i < insert_sorted(s, t).len() implies offset_millis(
            #[trigger] insert_sorted(s, t)[i],
        ) <= b by {
            lemma_insert_keeps_length(d, t);
            if i < insert_sorted(d, t).len() {
                assert(insert_sorted(s, t)[i] == insert_sorted(d, t)[i]);
            }
        }
    }
}

/// Inserting into a sorted sequence keeps it sorted.
proof fn lemma_insert_sorted(s: Seq<TimeStamp>, t: TimeStamp)
    requires
        is_sorted(s),
    ensures
        is_sorted(insert_sorted(s, t)),
    decreases s.len(),
{
    if s.len() > 0 {
        let d = s.drop_last();
        if offset_millis(s.last()) > offset_millis(t) {
            assert(is_sorted(d));
            lemma_insert_sorted(d, t);
            lemma_insert_bounded(d, t, offset_millis(s.last()));
            lemma_insert_keeps_length(d, t);
            let r = insert_sorted(s, t);
            assert forall|i: int, j: int| 0 <= i < j < r.len() implies offset_millis(r[i])
                <= offset_millis(r[j]) by {
                assert(r[i] == insert_sorted(d, t)[i]);
                if j < r.len() - 1 {
                    assert(r[j] == insert_sorted(d, t)[j]);
                }
            }
        }
    }
}

/// Inserting adds `t` to what `s` holds.
proof fn lemma_insert_permutes(s: Seq<TimeStamp>, t: TimeStamp)
    ensures
        insert_sorted(s, t).to_multiset() == s.to_multiset().insert(t),
    decreases s.len(),
{
    broadcast use vstd::seq_lib::group_to_multiset_ensures;

    if s.len() > 0 && offset_millis(s.last()) > offset_millis(t) {
        let d = s.drop_last();
        lemma_insert_permutes(d, t);
        assert(d.push(s.last()) == s);
        assert(insert_sorted(s, t).to_multiset() =~= s.to_multiset().insert(t));
    }
}

/// The sorted sequence is in ascending order of offset and holds exactly the
/// timestamps it was made from.
pub proof fn lemma_sort_sorts(s: Seq<TimeStamp>)
    ensures
        is_sorted(sort_stable(s)),
        sort_stable(s).to_multiset() == s.to_multiset(),
    decreases s.len(),
{
    broadcast use vstd::seq_lib::group_to_multiset_ensures;

    if s.len() > 0 {
        let d = s.drop_last();
        lemma_sort_sorts(d);
        lemma_insert_sorted(sort_stable(d), s.last());
        lemma_insert_permutes(sort_stable(d), s.last());
        assert(d.push(s.last()) == s);
    } else {
        assert(s.to_multiset() =~= sort_stable(s).to_multiset());
    }
}

/// Sorting a sequence that is already in ascending order leaves it as it is.
pub proof fn lemma_sort_of_sorted(s: Seq<TimeStamp>)
    requires
        is_sorted(s),
    ensures
        sort_stable(s) == s,
    decreases s.len(),
{
    if s.len() > 0 {
        let d = s.drop_last();
        assert(is_sorted(d));
        lemma_sort_of_sorted(d);
        if d.len() > 0 {
            assert(offset_millis(d.last()) <= offset_millis(s.last()));
        }
        assert(d.push(s.last()) == s);
    }
}

/// Sorting twice gives what sorting once gives.
pub proof fn lemma_sort_idempotent(s: Seq<TimeStamp>)
    ensures
        sort_stable(sort_stable(s)) == sort_stable(s),
{
    lemma_sort_sorts(s);
    lemma_sort_of_sorted(sort_stable(s));
}

/// Planning the same offsets twice gives the same instructions, and planning
/// offsets given already sorted gives what planning them in any order gives.
pub proof fn lemma_plan_idempotent(
    input: Seq<char>,
    offsets: Seq<TimeStamp>,
    extension: Seq<char>,
    first: Seq<CutView>,
    second: Seq<CutView>,
)
    requires
        first == plan_view(input, offsets, extension),
        second == plan_view(input, offsets, extension),
    ensures
        first == second,
        plan_view(input, sort_stable(offsets), extension) == first,
{
    lemma_sort_idempotent(offsets);
}

/// The planned segments follow each other: the first starts at zero, each
/// other starts where the one before it ends, only the last runs to the end,
/// the boundaries come in ascending order of offset, and the `i`-th segment is
/// written to file `i + 1`.
pub proof fn lemma_plan_chain(input: Seq<char>, offsets: Seq<TimeStamp>, extension: Seq<char>)
    ensures
        ({
            let p = plan_view(input, offsets, extension);
            let sorted = sort_stable(offsets);
            &&& p.len() == offsets.len() + 1
            &&& p[0].from == render(zero())
            &&& p[p.len() - 1].to is None
            &&& forall|i: int| 0 <= i < p.len() - 1 ==> (#[trigger] p[i]).to is Some
            &&& forall|i: int| 0 < i < p.len() ==> (#[trigger] p[i]).from == p[i - 1].to->0
            &&& forall|i: int, j: int|
                0 <= i < j < sorted.len() ==> offset_millis(sorted[i]) <= offset_millis(sorted[j])
            &&& forall|i: int|
                0 <= i < p.len() ==> (#[trigger] p[i]).output == output_name(
                    (i + 1) as nat,
                    extension,
                )
        }),
{
    lemma_sort_keeps_length(offsets);
    lemma_sort_sorts(offsets);
}

} // verus!
