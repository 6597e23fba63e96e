//! Decoding and aggregation of mixed text/count requests.
//!
//! A request is an ordered sequence of elements, each either a piece of
//! text or a non-negative count. Raw, untyped input values are first
//! classified into those two variants (`decode`); a classified request is
//! then folded into a pair of totals: the combined character length of all
//! text elements and the sum of all count elements.

use vstd::prelude::*;

verus! {

/// A raw input value, as handed over by the transport layer before any
/// classification has happened. Integers of either sign arrive as `Int`;
/// character data arrives as `Text`; anything else (a fractional number,
/// a boolean, a null, a nested structure) is `Other` and can never be
/// classified.
#[derive(Debug)]
pub enum RawValue {
    Int(i128),
    Text(String),
    Other,
}

/// One classified element of a request: either text or a non-negative count.
#[derive(Debug, PartialEq, Eq)]
pub enum Data {
    Text(String),
    Count(usize),
}

/// Whether the raw value can be classified as some element at all:
/// integers must fit the count type, text always passes, everything
/// else is rejected.
pub open spec fn classifiable(r: RawValue) -> bool {
    match r {
        RawValue::Int(n) => 0 <= n as int && n as int <= usize::MAX as int,
        RawValue::Text(_) => true,
        RawValue::Other => false,
    }
}

/// The classification policy, as a relation between a raw value and the
/// element it classifies to. An integer in range always becomes a `Count`,
/// never the text rendering of itself; character data becomes `Text`.
pub open spec fn classifies(r: RawValue, d: Data) -> bool {
    match r {
        RawValue::Int(n) => d matches Data::Count(c) && c as int == n as int,
        RawValue::Text(s) => d matches Data::Text(t) && t@ == s@,
        RawValue::Other => false,
    }
}

/// Classify one raw value, or report that it fits neither variant.
pub fn classify(raw: &RawValue) -> (res: Option<Data>)
    ensures
        res is Some <==> classifiable(*raw),
        res matches Some(d) ==> classifies(*raw, d),
{
    match raw {
        RawValue::Int(n) => {
            if 0 <= *n && *n <= usize::MAX as i128 {
                Some(Data::Count(*n as usize))
            } else {
                None
            }
        },
        RawValue::Text(s) => Some(Data::Text(s.clone())),
        RawValue::Other => None,
    }
}

/// An ordered sequence of classified elements. Order carries no meaning
/// for the totals (see `lemma_aggregate_permutation`); only multiplicity
/// matters.
#[derive(Debug, PartialEq, Eq)]
pub struct DataRequest {
    pub data: Vec<Data>,
}

/// The two totals computed from one request: the combined character
/// length of all text elements, and the sum of all count elements.
#[derive(Debug, PartialEq, Eq, Structural)]
pub struct DataResponse {
    pub string_len: usize,
    pub int_sum: usize,
}

/// Why a request could not be processed: either some raw value at the
/// given position fits neither variant, or a running total left the
/// representable range.
#[derive(Debug, PartialEq, Eq, Structural)]
pub enum ProcessError {
    UnrecognizedElement(usize),
    AggregateOverflow,
}

/// Whether every raw value of the sequence can be classified.
pub open spec fn all_classifiable(s: Seq<RawValue>) -> bool {
    forall|i: int| 0 <= i < s.len() ==> classifiable(#[trigger] s[i])
}

/// Classify a whole sequence of raw values, all or nothing: either every
/// value fits one of the two variants and the classified request comes
/// back, or the position of the first value that fits neither is
/// reported and no partial result is produced.
pub fn decode(raw: &Vec<RawValue>) -> (res: Result<DataRequest, ProcessError>)
    ensures
        res is Ok <==> all_classifiable(raw@),
        res matches Ok(req) ==> {
            &&& req.data@.len() == raw@.len()
            &&& forall|i: int| 0 <= i < raw@.len() ==> classifies(raw@[i], #[trigger] req.data@[i])
        },
        res matches Err(e) ==> {
            &&& e matches ProcessError::UnrecognizedElement(j)
            &&& 0 <= j < raw@.len()
            &&& !classifiable(raw@[j as int])
            &&& forall|i: int| 0 <= i < j ==> classifiable(#[trigger] raw@[i])
        },
{
    let mut data: Vec<Data> = Vec::new();
    let n = raw.len();
    let mut i: usize = 0;
    while i < n
        invariant
            n == raw@.len(),
            i <= n,
            data@.len() == i as int,
            forall|k: int| 0 <= k < i ==> classifies(raw@[k], #[trigger] data@[k]),
            forall|k: int| 0 <= k < i ==> classifiable(#[trigger] raw@[k]),
        decreases n - i,
    {
        match classify(&raw[i]) {
            Some(d) => data.push(d),
            None => {
                return Err(ProcessError::UnrecognizedElement(i));
            },
        }
        i = i + 1;
    }
    Ok(DataRequest { data })
}

/// The character length an element contributes to the text total.
pub open spec fn text_len_of(d: Data) -> int {
    match d {
        Data::Text(s) => s@.len() as int,
        Data::Count(_) => 0,
    }
}

/// The value an element contributes to the count total.
pub open spec fn count_of(d: Data) -> int {
    match d {
        Data::Text(_) => 0,
        Data::Count(n) => n as int,
    }
}

/// The combined character length of all text elements of the sequence.
pub open spec fn text_len_sum(s: Seq<Data>) -> int
    decreases s.len(),
{
    if s.len() == 0 {
        0
    } else {
        text_len_sum(s.drop_last()) + text_len_of(s.last())
    }
}

/// The sum of all count elements of the sequence.
pub open spec fn count_sum(s: Seq<Data>) -> int
    decreases s.len(),
{
    if s.len() == 0 {
        0
    } else {
        count_sum(s.drop_last()) + count_of(s.last())
    }
}

/// Every element contributes a non-negative amount, so both totals are
/// non-negative.
proof fn lemma_sums_nonneg(s: Seq<Data>)
    ensures
        text_len_sum(s) >= 0,
        count_sum(s) >= 0,
    decreases s.len(),
{
    if s.len() > 0 {
        lemma_sums_nonneg(s.drop_last());
    }
}

/// The totals of a prefix never exceed the totals of the whole sequence.
proof fn lemma_sum_take_le(s: Seq<Data>, i: int)
    requires
        0 <= i <= s.len(),
    ensures
        text_len_sum(s.take(i)) <= text_len_sum(s),
        count_sum(s.take(i)) <= count_sum(s),
    decreases s.len() - i,
{
    if i == s.len() {
        assert(s.take(i) =~= s);
    } else {
        lemma_sum_take_le(s, i + 1);
        assert(s.take(i + 1).drop_last() =~= s.take(i));
        assert(s.take(i + 1).last() == s[i]);
    }
}

impl DataRequest {
    /// Fold the request into its two totals. The caller must know that
    /// neither total leaves the representable range; `try_process` is
    /// the variant that detects that instead.
    pub fn process(&self) -> (res: DataResponse)
        requires
            text_len_sum(self.data@) <= usize::MAX as int,
            count_sum(self.data@) <= usize::MAX as int,
        ensures
            res.string_len == text_len_sum(self.data@),
            res.int_sum == count_sum(self.data@),
    {
        let ghost s = self.data@;
        let mut string_len: usize = 0;
        let mut int_sum: usize = 0;
        let n = self.data.len();
        let mut i: usize = 0;
        while i < n
            invariant
                s == self.data@,
                n == s.len(),
                i <= n,
                string_len == text_len_sum(s.take(i as int)),
                int_sum == count_sum(s.take(i as int)),
                text_len_sum(s) <= usize::MAX as int,
                count_sum(s) <= usize::MAX as int,
            decreases n - i,
        {
            proof {
                assert(s.take(i + 1).drop_last() =~= s.take(i as int));
                assert(s.take(i + 1).last() == s[i as int]);
                lemma_sums_nonneg(s.take(i as int));
                lemma_sum_take_le(s, i + 1);
            }
            match &self.data[i] {
                Data::Text(t) => {
                    let l = t.as_str().unicode_len();
                    string_len = string_len + l;
                },
                Data::Count(c) => {
                    int_sum = int_sum + *c;
                },
            }
            i = i + 1;
        }
        proof {
            assert(s.take(n as int) =~= s);
        }
        DataResponse { string_len, int_sum }
    }

    /// Fold the request into its two totals, detecting overflow: the
    /// totals come back exactly when both fit the representable range,
    /// and otherwise the request is rejected whole.
    pub fn try_process(&self) -> (res: Result<DataResponse, ProcessError>)
        ensures
            res is Ok <==> (text_len_sum(self.data@) <= usize::MAX as int && count_sum(self.data@)
                <= usize::MAX as int),
            res matches Ok(r) ==> r.string_len == text_len_sum(self.data@) && r.int_sum
                == count_sum(self.data@),
            res matches Err(e) ==> e == ProcessError::AggregateOverflow,
    {
        let ghost s = self.data@;
        let mut string_len: usize = 0;
        let mut int_sum: usize = 0;
        let n = self.data.len();
        let mut i: usize = 0;
        while i < n
            invariant
                s == self.data@,
                n == s.len(),
                i <= n,
                string_len == text_len_sum(s.take(i as int)),
                int_sum == count_sum(s.take(i as int)),
            decreases n - i,
        {
            proof {
                assert(s.take(i + 1).drop_last() =~= s.take(i as int));
                assert(s.take(i + 1).last() == s[i as int]);
                lemma_sums_nonneg(s.take(i as int));
                lemma_sum_take_le(s, i + 1);
            }
            match &self.data[i] {
                Data::Text(t) => {
                    let l = t.as_str().unicode_len();
                    if l > usize::MAX - string_len {
                        return Err(ProcessError::AggregateOverflow);
                    }
                    string_len = string_len + l;
                },
                Data::Count(c) => {
                    if *c > usize::MAX - int_sum {
                        return Err(ProcessError::AggregateOverflow);
                    }
                    int_sum = int_sum + *c;
                },
            }
            i = i + 1;
        }
        proof {
            assert(s.take(n as int) =~= s);
        }
        Ok(DataResponse { string_len, int_sum })
    }
}

/// Removing one element takes exactly its own contribution out of each
/// total.
proof fn lemma_sum_remove(s: Seq<Data>, j: int)
    requires
        0 <= j < s.len(),
    ensures
        text_len_sum(s) == text_len_of(s[j]) + text_len_sum(s.remove(j)),
        count_sum(s) == count_of(s[j]) + count_sum(s.remove(j)),
    decreases s.len(),
{
    if j == s.len() - 1 {
        assert(s.remove(j) =~= s.drop_last());
    } else {
        let t = s.drop_last();
        lemma_sum_remove(t, j);
        assert(s.remove(j).drop_last() =~= t.remove(j));
        assert(s.remove(j).last() == s.last());
        assert(t[j] == s[j]);
    }
}

/// Order does not matter for aggregation: two sequences with the same
/// elements, each with the same multiplicity, have the same totals.
pub proof fn lemma_aggregate_permutation(s1: Seq<Data>, s2: Seq<Data>)
    requires
        s1.to_multiset() == s2.to_multiset(),
    ensures
        text_len_sum(s1) == text_len_sum(s2),
        count_sum(s1) == count_sum(s2),
    decreases s1.len(),
{
    broadcast use vstd::seq_lib::group_to_multiset_ensures;

    if s1.len() == 0 {
        assert(s2.to_multiset().len() == 0);
        assert(s2.len() == 0);
    } else {
        let j1 = s1.len() - 1;
        let x = s1[j1];
        assert(s1.contains(x));
        assert(s2.to_multiset().count(x) > 0);
        assert(s2.contains(x));
        let j2 = choose|j: int| 0 <= j < s2.len() && s2[j] == x;
        assert(s1.remove(j1).to_multiset() == s2.remove(j2).to_multiset()) by {
            assert(s1.remove(j1).to_multiset() =~= s1.to_multiset().remove(x));
            assert(s2.remove(j2).to_multiset() =~= s2.to_multiset().remove(x));
        }
        lemma_aggregate_permutation(s1.remove(j1), s2.remove(j2));
        lemma_sum_remove(s1, j1);
        lemma_sum_remove(s2, j2);
    }
}

/// Aggregating the empty sequence yields zero for both totals.
pub proof fn lemma_aggregate_empty()
    ensures
        text_len_sum(Seq::<Data>::empty()) == 0,
        count_sum(Seq::<Data>::empty()) == 0,
{
}

/// Aggregation is a pure function of the decoded sequence: any two
/// responses whose totals both agree with the same sequence are
/// identical.
pub proof fn lemma_aggregate_deterministic(s: Seq<Data>, r1: DataResponse, r2: DataResponse)
    requires
        r1.string_len == text_len_sum(s),
        r1.int_sum == count_sum(s),
        r2.string_len == text_len_sum(s),
        r2.int_sum == count_sum(s),
    ensures
        r1 == r2,
{
}

} // verus!
