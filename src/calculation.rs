//! The three calculations a solver is checked on, and how each turns a test
//! case into a request line and a response line into the values it compares.
use crate::line::{
    check_shape, contents, fields_of, has_shape, is_plain_field, is_test_case, joined,
    lemma_joined_splits_back,
    shape_error, split_fields, LineError, TestCase, SEPARATOR,
};
use vstd::prelude::*;

verus! {

/// Positions of the values in a test case.
pub const LAT1: usize = 0;
pub const LON1: usize = 1;
pub const AZI1: usize = 2;
pub const LAT2: usize = 3;
pub const LON2: usize = 4;
pub const AZI2: usize = 5;
pub const S12: usize = 6;
pub const A12: usize = 7;
pub const M12: usize = 8;
pub const AREA: usize = 9;

/// Positions of the values in a solver's response (the full output of a
/// solver run with `-f`: `lat1 lon1 azi1 lat2 lon2 azi2 s12 a12 m12 ...`).
pub const OUT_LAT: usize = 3;
pub const OUT_LON: usize = 4;
pub const OUT_AZI: usize = 5;
pub const OUT_S12: usize = 6;
pub const OUT_M12: usize = 8;

/// The byte that ends a request line.
pub const NEWLINE: u8 = 10u8;

/// The sign bytes of a decimal number.
pub const MINUS: u8 = 45u8;
pub const PLUS: u8 = 43u8;

/// A calculation that a solver is asked to perform for every test case.
#[derive(Debug, Clone, Copy, PartialEq, Eq, Structural)]
pub enum Calculation {
    /// From point 1, its azimuth and the distance, find point 2.
    DirectP1ToP2,
    /// From point 2, its azimuth and the negated distance, find point 1.
    DirectP2ToP1,
    /// From the two points, find the distance.
    Inverse,
}

/// The solver process that a calculation is sent to: the two direct
/// calculations share one, the inverse one has its own.
#[derive(Debug, Clone, Copy, PartialEq, Eq, Structural)]
pub enum Channel {
    Direct,
    Inverse,
}

/// A value taken from a line by position, with its sign changed or not.
#[derive(Debug, Clone, Copy, PartialEq, Eq, Structural)]
pub struct Pick {
    pub index: usize,
    pub negated: bool,
}

pub open spec fn keep(index: usize) -> Pick {
    Pick { index, negated: false }
}

pub open spec fn flip(index: usize) -> Pick {
    Pick { index, negated: true }
}

/// The text of the negation of the number written `t`: a leading minus is
/// dropped, a leading plus becomes a minus, and otherwise a minus is put in
/// front.
pub open spec fn negated_text(t: Seq<u8>) -> Seq<u8> {
    if t.len() > 0 && t[0] == MINUS {
        t.skip(1)
    } else if t.len() > 0 && t[0] == PLUS {
        seq![MINUS] + t.skip(1)
    } else {
        seq![MINUS] + t
    }
}

/// The text that `p` takes from `fields`.
pub open spec fn picked(fields: Seq<Seq<u8>>, p: Pick) -> Seq<u8> {
    if p.negated {
        negated_text(fields[p.index as int])
    } else {
        fields[p.index as int]
    }
}

/// The texts that `layout` takes from `fields`, in layout order.
pub open spec fn picked_all(fields: Seq<Seq<u8>>, layout: Seq<Pick>) -> Seq<Seq<u8>> {
    Seq::new(layout.len(), |i: int| picked(fields, layout[i]))
}

/// Every index of `layout` lies below `n`.
pub open spec fn fits(layout: Seq<Pick>, n: nat) -> bool {
    forall|i: int| 0 <= i < layout.len() ==> (#[trigger] layout[i]).index < n
}

impl Calculation {
    /// The solver process this calculation goes to.
    pub open spec fn channel_of(self) -> Channel {
        match self {
            Calculation::Inverse => Channel::Inverse,
            _ => Channel::Direct,
        }
    }

    /// The test-case values that make up the request, in request order:
    /// `lat1 lon1 azi1 s12`, `lat2 lon2 azi2 -s12` or `lat1 lon1 lat2 lon2`.
    pub open spec fn request_layout(self) -> Seq<Pick> {
        match self {
            Calculation::DirectP1ToP2 => seq![keep(LAT1), keep(LON1), keep(AZI1), keep(S12)],
            Calculation::DirectP2ToP1 => seq![keep(LAT2), keep(LON2), keep(AZI2), flip(S12)],
            Calculation::Inverse => seq![keep(LAT1), keep(LON1), keep(LAT2), keep(LON2)],
        }
    }

    /// The test-case values that the solver's answer should reproduce.
    ///
    /// Going back from point 2 by the negated distance, the solver reports
    /// point 1 with the forward azimuth there, which is `azi1` as stored; the
    /// reduced length of the reversed geodesic is `-m12`.
    pub open spec fn expected_layout(self) -> Seq<Pick> {
        match self {
            Calculation::DirectP1ToP2 => seq![keep(LAT2), keep(LON2), keep(AZI2), keep(M12)],
            Calculation::DirectP2ToP1 => seq![keep(LAT1), keep(LON1), keep(AZI1), flip(M12)],
            Calculation::Inverse => seq![keep(S12)],
        }
    }

    /// The fewest fields a response line may have.
    pub open spec fn response_minimum(self) -> nat {
        match self {
            Calculation::Inverse => (OUT_S12 + 1) as nat,
            _ => (OUT_AZI + 1) as nat,
        }
    }

    /// The response values that are compared, in the order of
    /// `expected_layout`: the reduced length only where the response has it.
    pub open spec fn response_values(self, fields: Seq<Seq<u8>>) -> Seq<Seq<u8>> {
        match self {
            Calculation::Inverse => seq![fields[OUT_S12 as int]],
            _ => {
                let position = seq![
                    fields[OUT_LAT as int],
                    fields[OUT_LON as int],
                    fields[OUT_AZI as int],
                ];
                if fields.len() > OUT_M12 {
                    position.push(fields[OUT_M12 as int])
                } else {
                    position
                }
            },
        }
    }

    /// The request line for a test case with `fields`.
    pub open spec fn request_text(self, fields: Seq<Seq<u8>>) -> Seq<u8> {
        joined(picked_all(fields, self.request_layout())).push(NEWLINE)
    }

    /// The solver process this calculation goes to.
    pub fn channel(&self) -> (r: Channel)
        ensures
            r == self.channel_of(),
    {
        match self {
            Calculation::Inverse => Channel::Inverse,
            _ => Channel::Direct,
        }
    }

    fn request_picks(&self) -> (r: Vec<Pick>)
        ensures
            r@ == self.request_layout(),
    {
        let r = match self {
            Calculation::DirectP1ToP2 => vec![
                Pick { index: LAT1, negated: false },
                Pick { index: LON1, negated: false },
                Pick { index: AZI1, negated: false },
                Pick { index: S12, negated: false },
            ],
            Calculation::DirectP2ToP1 => vec![
                Pick { index: LAT2, negated: false },
                Pick { index: LON2, negated: false },
                Pick { index: AZI2, negated: false },
                Pick { index: S12, negated: true },
            ],
            Calculation::Inverse => vec![
                Pick { index: LAT1, negated: false },
                Pick { index: LON1, negated: false },
                Pick { index: LAT2, negated: false },
                Pick { index: LON2, negated: false },
            ],
        };
        assert(r@ =~= self.request_layout());
        r
    }

    fn expected_picks(&self) -> (r: Vec<Pick>)
        ensures
            r@ == self.expected_layout(),
    {
        let r = match self {
            Calculation::DirectP1ToP2 => vec![
                Pick { index: LAT2, negated: false },
                Pick { index: LON2, negated: false },
                Pick { index: AZI2, negated: false },
                Pick { index: M12, negated: false },
            ],
            Calculation::DirectP2ToP1 => vec![
                Pick { index: LAT1, negated: false },
                Pick { index: LON1, negated: false },
                Pick { index: AZI1, negated: false },
                Pick { index: M12, negated: true },
            ],
            Calculation::Inverse => vec![Pick { index: S12, negated: false }],
        };
        assert(r@ =~= self.expected_layout());
        r
    }

    /// The request line that asks the solver for this calculation on `case`.
    pub fn encode_request(&self, case: &TestCase) -> (r: Vec<u8>)
        ensures
            r@ == self.request_text(case@),
    {
        let layout = self.request_picks();
        let n = case.len();
        assert(fits(layout@, n as nat));
        let values = pick_values(case, &layout);
        let mut r = join_fields(&values);
        r.push(NEWLINE);
        r
    }

    /// The values of `case` that the solver's answer is compared with.
    pub fn expected_values(&self, case: &TestCase) -> (r: Vec<Vec<u8>>)
        ensures
            contents(r@) == picked_all(case@, self.expected_layout()),
    {
        let layout = self.expected_picks();
        let n = case.len();
        assert(fits(layout@, n as nat));
        pick_values(case, &layout)
    }

    /// The fewest fields a response line may have.
    pub fn response_min(&self) -> (r: usize)
        ensures
            r == self.response_minimum(),
    {
        match self {
            Calculation::Inverse => OUT_S12 + 1,
            _ => OUT_AZI + 1,
        }
    }

    /// Reads the solver's response line and returns the values to compare,
    /// or the way the line breaks the protocol.
    pub fn decode_response(&self, line: &[u8]) -> (r: Result<Vec<Vec<u8>>, LineError>)
        ensures
            r is Ok <==> has_shape(fields_of(line@), self.response_minimum(), usize::MAX as nat),
            r matches Ok(v) ==> contents(v@) == self.response_values(fields_of(line@)),
            r matches Err(e) ==> shape_error(
                fields_of(line@),
                self.response_minimum(),
                usize::MAX as nat,
                e,
            ),
    {
        let fields = split_fields(line);
        let min = self.response_min();
        match check_shape(&fields, min, usize::MAX) {
            Err(e) => Err(e),
            Ok(()) => {
                let ghost f = contents(fields@);
                let mut out: Vec<Vec<u8>> = Vec::new();
                match self {
                    Calculation::Inverse => {
                        out.push(fields[OUT_S12].clone());
                    },
                    _ => {
                        out.push(fields[OUT_LAT].clone());
                        out.push(fields[OUT_LON].clone());
                        out.push(fields[OUT_AZI].clone());
                        if fields.len() > OUT_M12 {
                            out.push(fields[OUT_M12].clone());
                        }
                    },
                }
                assert(contents(out@) =~= self.response_values(f));
                Ok(out)
            },
        }
    }
}

/// A copy of `t`, negated as text where `negated` holds.
fn signed_copy(t: &Vec<u8>, negated: bool) -> (r: Vec<u8>)
    ensures
        r@ == (if negated { negated_text(t@) } else { t@ }),
{
    let n = t.len();
    let mut r: Vec<u8> = Vec::new();
    let mut start: usize = 0;
    if negated {
        if n > 0 && t[0] == MINUS {
            start = 1;
        } else if n > 0 && t[0] == PLUS {
            r.push(MINUS);
            start = 1;
        } else {
            r.push(MINUS);
        }
    }
    let ghost head = r@;
    let mut i: usize = start;
    while i < n
        invariant
            n == t@.len(),
            start <= i <= n,
            r@ == head + t@.subrange(start as int, i as int),
        decreases n - i,
    {
        r.push(t[i]);
        i = i + 1;
        assert(r@ =~= head + t@.subrange(start as int, i as int));
    }
    assert(r@ =~= (if negated { negated_text(t@) } else { t@ }));
    r
}

/// The values that `layout` takes from `case`.
fn pick_values(case: &TestCase, layout: &Vec<Pick>) -> (r: Vec<Vec<u8>>)
    requires
        fits(layout@, case@.len()),
    ensures
        contents(r@) == picked_all(case@, layout@),
{
    let mut r: Vec<Vec<u8>> = Vec::new();
    let mut i: usize = 0;
    while i < layout.len()
        invariant
            i <= layout@.len(),
            fits(layout@, case@.len()),
            contents(r@) == picked_all(case@, layout@.take(i as int)),
        decreases layout@.len() - i,
    {
        let p = layout[i];
        assert(layout@[i as int] == p);
        let v = signed_copy(case.field(p.index), p.negated);
        assert(v@ == picked(case@, p));
        let ghost before = contents(r@);
        r.push(v);
        proof {
            let want = picked_all(case@, layout@.take(i + 1));
            assert(contents(r@) =~= before.push(v@));
            assert(want =~= picked_all(case@, layout@.take(i as int)).push(picked(case@, p)));
        }
        i = i + 1;
    }
    assert(layout@.take(i as int) =~= layout@);
    r
}

/// The fields written on one line, a space between two of them.
fn join_fields(values: &Vec<Vec<u8>>) -> (r: Vec<u8>)
    ensures
        r@ == joined(contents(values@)),
{
    let ghost all = contents(values@);
    let mut r: Vec<u8> = Vec::new();
    let mut i: usize = 0;
    proof {
        assert(all.take(0) =~= Seq::<Seq<u8>>::empty());
    }
    while i < values.len()
        invariant
            i <= values@.len(),
            all == contents(values@),
            r@ == joined(all.take(i as int)),
        decreases values@.len() - i,
    {
        let ghost before = r@;
        if i > 0 {
            r.push(SEPARATOR);
        }
        let t = &values[i];
        let mut k: usize = 0;
        let ghost mid = r@;
        while k < t.len()
            invariant
                k <= t@.len(),
                r@ == mid + t@.take(k as int),
            decreases t@.len() - k,
        {
            r.push(t[k]);
            k = k + 1;
            assert(r@ =~= mid + t@.take(k as int));
        }
        proof {
            let next = all.take(i + 1);
            assert(next.drop_last() =~= all.take(i as int));
            assert(next.last() == t@);
            assert(t@.take(k as int) =~= t@);
            if i == 0 {
                assert(r@ =~= joined(next));
            } else {
                assert(r@ =~= joined(next));
            }
        }
        i = i + 1;
    }
    assert(all.take(i as int) =~= all);
    r
}


/// A request line, without its newline, reads back as exactly the values
/// that were picked for it, one field each.
pub proof fn lemma_request_reads_back(c: Calculation, fields: Seq<Seq<u8>>)
    requires
        is_test_case(fields),
    ensures
        c.request_text(fields).drop_last() == joined(picked_all(fields, c.request_layout())),
        fields_of(joined(picked_all(fields, c.request_layout()))) == picked_all(
            fields,
            c.request_layout(),
        ),
{
    let values = picked_all(fields, c.request_layout());
    assert(c.request_text(fields).drop_last() =~= joined(values));
    assert forall|i: int| 0 <= i < values.len() implies is_plain_field(#[trigger] values[i]) by {
        let p = c.request_layout()[i];
        let t = fields[p.index as int];
        assert(p.index < fields.len());
        assert(forall|k: int| 0 <= k < t.len() ==> fields[p.index as int][k] != SEPARATOR);
        assert(t.len() > 0);
        if p.negated {
            if t[0] == MINUS {
                assert forall|k: int| 0 <= k < values[i].len() implies values[i][k] != SEPARATOR by {
                    assert(values[i][k] == t[k + 1]);
                }
            } else if t[0] == PLUS {
                assert forall|k: int| 0 <= k < values[i].len() implies values[i][k] != SEPARATOR by {
                    if k > 0 {
                        assert(values[i][k] == t[k]);
                    }
                }
            } else {
                assert forall|k: int| 0 <= k < values[i].len() implies values[i][k] != SEPARATOR by {
                    if k > 0 {
                        assert(values[i][k] == t[k - 1]);
                    }
                }
            }
        }
    }
    lemma_joined_splits_back(values);
}

} // verus!
