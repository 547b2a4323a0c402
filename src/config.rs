use vstd::prelude::*;

use crate::cutter::{cut_views, plan, plan_view, CutInstruction};
use crate::timestamp::{parse_time, ParseError, TimeStamp};

verus! {

/// What a run is asked to do: cut `input` at `timestamps`, writing files with
/// `extension`.
pub struct Config {
    pub input: String,
    pub extension: String,
    pub timestamps: Vec<String>,
}

/// The timestamps read from `texts`, or none where one of them is malformed.
pub open spec fn parse_all(texts: Seq<Seq<char>>) -> Option<Seq<TimeStamp>>
    decreases texts.len(),
{
    if texts.len() == 0 {
        Some(Seq::empty())
    } else {
        match (parse_all(texts.drop_last()), parse_time(texts.last())) {
            (Some(ts), Some(t)) => Some(ts.push(t)),
            _ => None,
        }
    }
}

/// The texts of a list of strings.
pub open spec fn texts(v: Seq<String>) -> Seq<Seq<char>> {
    v.map_values(|s: String| s@)
}

proof fn lemma_parse_all_length(texts: Seq<Seq<char>>)
    ensures
        parse_all(texts) is Some ==> parse_all(texts)->0.len() == texts.len(),
    decreases texts.len(),
{
    if texts.len() > 0 {
        lemma_parse_all_length(texts.drop_last());
    }
}

impl Config {
    /// Reads every timestamp and plans the cuts; fails on the first malformed
    /// timestamp, before anything is planned.
    pub fn plan_cuts(&self) -> (r: Result<Vec<CutInstruction>, ParseError>)
        requires
            self.timestamps@.len() < usize::MAX,
        ensures
            match parse_all(texts(self.timestamps@)) {
                None => r == Err::<Vec<CutInstruction>, ParseError>(ParseError::MalformedField),
                Some(ts) => r is Ok && cut_views(r->Ok_0@) == plan_view(
                    self.input@,
                    ts,
                    self.extension@,
                ),
            },
    {
        let ghost all = texts(self.timestamps@);
        let mut parsed: Vec<TimeStamp> = Vec::new();
        let mut i: usize = 0;
        while i < self.timestamps.len()
            invariant
                i <= self.timestamps@.len(),
                all == texts(self.timestamps@),
                parse_all(all.take(i as int)) == Some(parsed@),
            decreases self.timestamps@.len() - i,
        {
            let ghost prefix = all.take(i + 1);
            assert(prefix.drop_last() == all.take(i as int));
            assert(prefix.last() == self.timestamps@[i as int]@);
            match TimeStamp::from_str(self.timestamps[i].as_str()) {
                Ok(t) => parsed.push(t),
                Err(e) => {
                    proof {
                        lemma_none_extends(all, i as int + 1);
                    }
                    assert(all.take(all.len() as int) == all);
                    return Err(e);
                },
            }
            i = i + 1;
        }
        assert(all.take(all.len() as int) == all);
        proof {
            lemma_parse_all_length(all);
        }
        Ok(plan(self.input.clone(), parsed, self.extension.clone()))
    }
}

/// Once a prefix holds a malformed timestamp, every longer prefix does.
proof fn lemma_none_extends(texts: Seq<Seq<char>>, k: int)
    requires
        0 <= k <= texts.len(),
        parse_all(texts.take(k)) is None,
    ensures
        parse_all(texts) is None,
    decreases texts.len() - k,
{
    if k < texts.len() {
        assert(texts.take(k + 1).drop_last() == texts.take(k));
        lemma_none_extends(texts, k + 1);
    } else {
        assert(texts.take(k) == texts);
    }
}

} // verus!
