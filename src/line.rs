//! The line grammar shared by the test-case feed and the solver protocol: a
//! line is a sequence of fields separated by single spaces.
use vstd::prelude::*;

verus! {

/// The byte that separates two fields of a line.
pub const SEPARATOR: u8 = 32u8;

/// The fields of `line`, read from left to right: each space closes a field
/// and opens the next one, so a line with `k` spaces has `k + 1` fields (some
/// of which may be empty).
pub open spec fn fields_of(line: Seq<u8>) -> Seq<Seq<u8>>
    decreases line.len(),
{
    if line.len() == 0 {
        seq![Seq::<u8>::empty()]
    } else {
        let earlier = fields_of(line.drop_last());
        if line.last() == SEPARATOR {
            earlier.push(Seq::<u8>::empty())
        } else {
            earlier.update(earlier.len() - 1, earlier.last().push(line.last()))
        }
    }
}

/// The contents of a vector of byte vectors.
pub open spec fn contents(v: Seq<Vec<u8>>) -> Seq<Seq<u8>> {
    v.map_values(|t: Vec<u8>| t@)
}

pub proof fn lemma_fields_of_nonempty(line: Seq<u8>)
    ensures
        fields_of(line).len() >= 1,
    decreases line.len(),
{
    if line.len() > 0 {
        lemma_fields_of_nonempty(line.drop_last());
    }
}

/// Splits `line` into its fields.
pub fn split_fields(line: &[u8]) -> (r: Vec<Vec<u8>>)
    ensures
        contents(r@) == fields_of(line@),
{
    let mut done: Vec<Vec<u8>> = Vec::new();
    let mut current: Vec<u8> = Vec::new();
    let mut i: usize = 0;
    proof {
        assert(line@.take(0) =~= Seq::<u8>::empty());
    }
    while i < line.len()
        invariant
            i <= line@.len(),
            contents(done@).push(current@) == fields_of(line@.take(i as int)),
        decreases line@.len() - i,
    {
        let b = line[i];
        proof {
            let next = line@.take(i + 1);
            assert(next.drop_last() =~= line@.take(i as int));
            assert(next.last() == b);
            lemma_fields_of_nonempty(line@.take(i as int));
        }
        if b == SEPARATOR {
            done.push(current);
            current = Vec::new();
            proof {
                assert(contents(done@).push(current@) =~= fields_of(line@.take(i + 1)));
            }
        } else {
            current.push(b);
            proof {
                assert(contents(done@).push(current@) =~= fields_of(line@.take(i + 1)));
            }
        }
        i = i + 1;
    }
    proof {
        assert(line@.take(i as int) =~= line@);
    }
    done.push(current);
    proof {
        assert(contents(done@) =~= fields_of(line@));
    }
    done
}


/// Why a line does not have the shape its role asks for.
#[derive(Debug, Clone, Copy, PartialEq, Eq, Structural)]
pub enum LineError {
    /// The line has `found` fields, outside the accepted range.
    FieldCount { found: usize },
    /// The field at `position` (the first such) is empty.
    EmptyField { position: usize },
}

/// A line has between `min` and `max` fields and none of them is empty.
pub open spec fn has_shape(fields: Seq<Seq<u8>>, min: nat, max: nat) -> bool {
    &&& min <= fields.len() <= max
    &&& forall|j: int| 0 <= j < fields.len() ==> (#[trigger] fields[j]).len() > 0
}

/// The error that a line with `fields` gets when it is asked to have between
/// `min` and `max` non-empty fields.
pub open spec fn shape_error(fields: Seq<Seq<u8>>, min: nat, max: nat, e: LineError) -> bool {
    match e {
        LineError::FieldCount { found } => found == fields.len() && !(min <= fields.len() <= max),
        LineError::EmptyField { position } => {
            &&& min <= fields.len() <= max
            &&& position < fields.len()
            &&& fields[position as int].len() == 0
            &&& forall|j: int| 0 <= j < position ==> (#[trigger] fields[j]).len() > 0
        },
    }
}

/// Checks that `fields` number between `min` and `max` and that none is empty.
pub fn check_shape(fields: &Vec<Vec<u8>>, min: usize, max: usize) -> (r: Result<(), LineError>)
    ensures
        r is Ok <==> has_shape(contents(fields@), min as nat, max as nat),
        r matches Err(e) ==> shape_error(contents(fields@), min as nat, max as nat, e),
{
    let ghost f = contents(fields@);
    let n = fields.len();
    if n < min || n > max {
        return Err(LineError::FieldCount { found: n });
    }
    let mut j: usize = 0;
    while j < n
        invariant
            n == fields@.len(),
            min <= n <= max,
            j <= n,
            f == contents(fields@),
            forall|k: int| 0 <= k < j ==> (#[trigger] f[k]).len() > 0,
        decreases n - j,
    {
        assert(f[j as int] == fields@[j as int]@);
        if fields[j].len() == 0 {
            return Err(LineError::EmptyField { position: j });
        }
        j = j + 1;
    }
    Ok(())
}

/// The least number of fields of a test case: both points with their
/// azimuths, the distance, the arc length and the reduced length.
pub const CASE_FIELDS: usize = 9;

/// The most fields of a test case: the area comes last and may be left out.
pub const CASE_FIELDS_WITH_AREA: usize = 10;

/// The fields of a test case, in line order: `lat1 lon1 azi1 lat2 lon2 azi2
/// s12 a12 m12`, and optionally `S12`.
#[derive(Debug)]
pub struct TestCase {
    fields: Vec<Vec<u8>>,
}

/// The fields of a well-formed test case.
pub open spec fn is_test_case(fields: Seq<Seq<u8>>) -> bool {
    &&& has_shape(fields, CASE_FIELDS as nat, CASE_FIELDS_WITH_AREA as nat)
    &&& forall|j: int, k: int|
        0 <= j < fields.len() && 0 <= k < fields[j].len() ==> #[trigger] fields[j][k] != SEPARATOR
}

impl View for TestCase {
    type V = Seq<Seq<u8>>;

    closed spec fn view(&self) -> Seq<Seq<u8>> {
        contents(self.fields@)
    }
}

impl TestCase {
    #[verifier::type_invariant]
    closed spec fn well_formed(self) -> bool {
        is_test_case(contents(self.fields@))
    }

    /// Reads a test case from one input line.
    pub fn parse(line: &[u8]) -> (r: Result<TestCase, LineError>)
        ensures
            r is Ok <==> has_shape(fields_of(line@), CASE_FIELDS as nat, CASE_FIELDS_WITH_AREA as nat),
            r matches Ok(c) ==> c@ == fields_of(line@),
            r matches Err(e) ==> shape_error(
                fields_of(line@),
                CASE_FIELDS as nat,
                CASE_FIELDS_WITH_AREA as nat,
                e,
            ),
    {
        let fields = split_fields(line);
        match check_shape(&fields, CASE_FIELDS, CASE_FIELDS_WITH_AREA) {
            Ok(()) => {
                proof {
                    lemma_fields_have_no_separator(line@);
                }
                Ok(TestCase { fields })
            },
            Err(e) => Err(e),
        }
    }

    /// The number of fields: nine, or ten where the area is given.
    pub fn len(&self) -> (n: usize)
        ensures
            n == self@.len(),
            is_test_case(self@),
    {
        proof {
            use_type_invariant(self);
        }
        self.fields.len()
    }

    /// The field at `index`.
    pub fn field(&self, index: usize) -> (r: &Vec<u8>)
        requires
            index < self@.len(),
        ensures
            r@ == self@[index as int],
    {
        &self.fields[index]
    }
}

/// No field of a line holds the separator.
pub proof fn lemma_fields_have_no_separator(line: Seq<u8>)
    ensures
        forall|j: int, k: int|
            0 <= j < fields_of(line).len() && 0 <= k < fields_of(line)[j].len()
                ==> #[trigger] fields_of(line)[j][k] != SEPARATOR,
    decreases line.len(),
{
    if line.len() > 0 {
        lemma_fields_of_nonempty(line.drop_last());
        lemma_fields_have_no_separator(line.drop_last());
        let earlier = fields_of(line.drop_last());
        let f = fields_of(line);
        assert forall|j: int, k: int| 0 <= j < f.len() && 0 <= k < f[j].len() implies #[trigger] f[j][k] != SEPARATOR by {
            if j < earlier.len() && k < earlier[j].len() {
                assert(f[j][k] == earlier[j][k]);
            }
        }
    }
}

/// Fields written on one line with a single space between two of them.
pub open spec fn joined(fields: Seq<Seq<u8>>) -> Seq<u8>
    decreases fields.len(),
{
    if fields.len() == 0 {
        Seq::<u8>::empty()
    } else if fields.len() == 1 {
        fields[0]
    } else {
        joined(fields.drop_last()) + seq![SEPARATOR] + fields.last()
    }
}

/// A field with no separator in it.
pub open spec fn is_plain_field(t: Seq<u8>) -> bool {
    forall|k: int| 0 <= k < t.len() ==> t[k] != SEPARATOR
}

proof fn lemma_split_after_separator(a: Seq<u8>, t: Seq<u8>)
    requires
        is_plain_field(t),
    ensures
        fields_of(a + seq![SEPARATOR] + t) == fields_of(a).push(t),
    decreases t.len(),
{
    let line = a + seq![SEPARATOR] + t;
    if t.len() == 0 {
        assert(line.drop_last() =~= a);
        assert(line.last() == SEPARATOR);
        assert(t =~= Seq::<u8>::empty());
    } else {
        let shorter = t.drop_last();
        assert(line.drop_last() =~= a + seq![SEPARATOR] + shorter);
        assert(line.last() == t.last());
        lemma_split_after_separator(a, shorter);
        assert(shorter.push(t.last()) =~= t);
        assert(fields_of(line) =~= fields_of(a).push(t));
    }
}

proof fn lemma_split_plain(t: Seq<u8>)
    requires
        is_plain_field(t),
    ensures
        fields_of(t) == seq![t],
    decreases t.len(),
{
    if t.len() > 0 {
        let shorter = t.drop_last();
        lemma_split_plain(shorter);
        assert(shorter.push(t.last()) =~= t);
        assert(fields_of(t) =~= seq![t]);
    } else {
        assert(t =~= Seq::<u8>::empty());
    }
}

/// Splitting a line written from fields that hold no separator gives back
/// those fields.
pub proof fn lemma_joined_splits_back(values: Seq<Seq<u8>>)
    requires
        values.len() > 0,
        forall|i: int| 0 <= i < values.len() ==> is_plain_field(#[trigger] values[i]),
    ensures
        fields_of(joined(values)) == values,
    decreases values.len(),
{
    if values.len() == 1 {
        lemma_split_plain(values[0]);
        assert(seq![values[0]] =~= values);
    } else {
        let earlier = values.drop_last();
        assert forall|i: int| 0 <= i < earlier.len() implies is_plain_field(#[trigger] earlier[i]) by {
            assert(earlier[i] == values[i]);
        }
        lemma_joined_splits_back(earlier);
        lemma_split_after_separator(joined(earlier), values.last());
        assert(earlier.push(values.last()) =~= values);
    }
}

} // verus!
