//! The row of lights: representation, flip eligibility, and parsing.

use vstd::prelude::*;

verus! {

/// The largest number of lights a row may hold.
pub const MAX_LIGHTS: usize = 25;

/// A failure raised by a `Lights` operation.
#[derive(Debug, PartialEq, Eq, Structural)]
pub enum SolverError {
    /// An operation addressed a position at or past the end of the row.
    IndexOutOfBounds,
    /// Construction from text found no `0` or `1` characters.
    NoLight,
    /// Construction from text found more than `MAX_LIGHTS` meaningful characters.
    TooManyLights,
}

impl SolverError {
    /// A human-readable description of the failure.
    pub fn message(&self) -> (r: String)
        ensures
            match self {
                SolverError::IndexOutOfBounds => r@ == "index out of bounds"@,
                SolverError::NoLight => r@ == "not enough lights to process"@,
                SolverError::TooManyLights => r@ == "too much lights to process (max is 25)"@,
            },
    {
        match self {
            SolverError::IndexOutOfBounds => String::from_str("index out of bounds"),
            SolverError::NoLight => String::from_str("not enough lights to process"),
            SolverError::TooManyLights => String::from_str("too much lights to process (max is 25)"),
        }
    }
}

/// An ordered, fixed-length row of lights, each lit (`true`) or unlit (`false`).
#[derive(Debug, PartialEq, Eq)]
pub struct Lights {
    bits: Vec<bool>,
}

impl View for Lights {
    type V = Seq<bool>;

    closed spec fn view(&self) -> Seq<bool> {
        self.bits@
    }
}

/// Whether the light at `i` may be flipped directly, given the current row `s`.
///
/// The last light is always eligible; the second-to-last is eligible exactly
/// when the last is lit; any other light is eligible exactly when its right
/// neighbour is lit and everything further right is unlit.
pub open spec fn could_be_flipped_spec(s: Seq<bool>, i: int) -> bool
    recommends
        0 <= i < s.len(),
{
    if i == s.len() - 1 {
        true
    } else if i == s.len() - 2 {
        s[s.len() - 1]
    } else {
        s[i + 1] && (forall|j: int| i + 2 <= j < s.len() ==> !s[j])
    }
}

/// The position of the first lit light at or after `j`, if any.
pub open spec fn first_lit_from(s: Seq<bool>, j: int) -> Option<int>
    decreases s.len() - j,
{
    if j < 0 || j >= s.len() {
        None
    } else if s[j] {
        Some(j)
    } else {
        first_lit_from(s, j + 1)
    }
}

/// The prerequisite position that must be flipped before the light at `i`
/// becomes eligible, or `None` when `i` is already eligible (or, defensively,
/// when no lit light exists past `i + 1`).
pub open spec fn prerequisite_spec(s: Seq<bool>, i: int) -> Option<int>
    recommends
        0 <= i < s.len(),
{
    if could_be_flipped_spec(s, i) {
        None
    } else if !s[i + 1] {
        Some(i + 1)
    } else {
        first_lit_from(s, i + 2)
    }
}

/// The first position at or after `from` where `a` and `b` disagree, if any.
pub open spec fn first_diff_spec(a: Seq<bool>, b: Seq<bool>, from: int) -> Option<int>
    recommends
        a.len() == b.len(),
    decreases a.len() - from,
{
    if from < 0 || from >= a.len() {
        None
    } else if a[from] != b[from] {
        Some(from)
    } else {
        first_diff_spec(a, b, from + 1)
    }
}

impl Lights {
    /// The number of lights in the row.
    pub fn len(&self) -> (n: usize)
        ensures
            n == self@.len(),
    {
        self.bits.len()
    }

    /// Whether the light at `index` is lit.
    pub fn is_lit(&self, index: usize) -> (b: bool)
        requires
            index < self@.len(),
        ensures
            b == self@[index as int],
    {
        self.bits[index]
    }

    /// Toggles the light at `index`; rejects an index at or past the end.
    pub fn flip(&mut self, index: usize) -> (r: Result<(), SolverError>)
        ensures
            index < old(self)@.len() ==> r == Ok::<(), SolverError>(()) && final(self)@ == old(
                self,
            )@.update(index as int, !old(self)@[index as int]),
            index >= old(self)@.len() ==> r == Err::<(), SolverError>(SolverError::IndexOutOfBounds)
                && final(self)@ == old(self)@,
    {
        if index >= self.bits.len() {
            return Err(SolverError::IndexOutOfBounds);
        }
        let value = self.bits[index];
        self.bits[index] = !value;
        Ok(())
    }

    /// Whether the light at `index` is eligible for a direct flip in the
    /// current state, without mutating anything.
    pub fn could_be_flipped(&self, index: usize) -> (b: bool)
        requires
            index < self@.len(),
        ensures
            b == could_be_flipped_spec(self@, index as int),
    {
        let n = self.bits.len();
        if index == n - 1 {
            return true;
        }
        if index == n - 2 {
            return self.bits[n - 1];
        }
        if !self.bits[index + 1] {
            return false;
        }
        let mut j = index + 2;
        while j < n
            invariant
                index + 2 <= j <= n,
                n == self@.len(),
                self@[index + 1],
                forall|p: int| index + 2 <= p < j ==> !self@[p],
            decreases n - j,
        {
            if self.bits[j] {
                return false;
            }
            j += 1;
        }
        true
    }

    /// The first position at or after `first_index` where this row and
    /// `target` disagree, or `None` when they agree from there on. The two
    /// rows must have the same length for the comparison to be meaningful.
    pub fn get_first_different_index(&self, target: &Lights, first_index: usize) -> (r: Option<
        usize,
    >)
        requires
            self@.len() == target@.len(),
            first_index <= self@.len(),
        ensures
            match r {
                Some(d) => first_diff_spec(self@, target@, first_index as int) == Some(d as int)
                    && first_index <= d < self@.len() && self@[d as int] != target@[d as int],
                None => first_diff_spec(self@, target@, first_index as int) is None,
            },
    {
        let n = self.bits.len();
        let mut i = first_index;
        while i < n
            invariant
                first_index <= i <= n,
                n == self@.len(),
                self@.len() == target@.len(),
                first_diff_spec(self@, target@, first_index as int) == first_diff_spec(
                    self@,
                    target@,
                    i as int,
                ),
            decreases n - i,
        {
            if self.bits[i] != target.bits[i] {
                return Some(i);
            }
            i += 1;
        }
        None
    }

    /// The position that must be flipped before the light at `index` becomes
    /// eligible, or `None` when `index` is already eligible. When the right
    /// neighbour is unlit, it is the prerequisite (it must be lit first);
    /// otherwise the first lit light past the neighbour is (it must be
    /// cleared first). Defensively returns `None` when no such light exists.
    pub fn need_light_to_flip(&self, index: usize) -> (r: Option<usize>)
        requires
            index < self@.len(),
        ensures
            match r {
                Some(p) => prerequisite_spec(self@, index as int) == Some(p as int) && index < p
                    < self@.len(),
                None => prerequisite_spec(self@, index as int) is None,
            },
    {
        if self.could_be_flipped(index) {
            return None;
        }
        let n = self.bits.len();
        if !self.bits[index + 1] {
            return Some(index + 1);
        }
        let mut j = index + 2;
        while j < n
            invariant
                index + 2 <= j <= n,
                n == self@.len(),
                !could_be_flipped_spec(self@, index as int),
                self@[index + 1],
                first_lit_from(self@, index + 2) == first_lit_from(self@, j as int),
            decreases n - j,
        {
            if self.bits[j] {
                return Some(j);
            }
            j += 1;
        }
        None
    }

    /// Whether this row and `other` hold the same lights: the same length and
    /// identical values at every position.
    pub fn equals(&self, other: &Lights) -> (r: bool)
        ensures
            r == (self@ == other@),
    {
        if self.bits.len() != other.bits.len() {
            return false;
        }
        match self.get_first_different_index(other, 0) {
            Some(d) => {
                proof {
                    if self@ == other@ {
                        assert(self@[d as int] == other@[d as int]);
                    }
                }
                false
            },
            None => {
                proof {
                    lemma_no_diff_means_equal(self@, other@);
                }
                true
            },
        }
    }
}

/// The lights denoted by a piece of text: each `1` is a lit light, each `0`
/// an unlit one, and every other character is dropped.
pub open spec fn parse_bits(cs: Seq<char>) -> Seq<bool>
    decreases cs.len(),
{
    if cs.len() == 0 {
        Seq::empty()
    } else {
        let init = parse_bits(cs.drop_last());
        if cs.last() == '1' {
            init.push(true)
        } else if cs.last() == '0' {
            init.push(false)
        } else {
            init
        }
    }
}

/// The text denoting a row of lights: one `1` or `0` character per light.
pub open spec fn render_spec(s: Seq<bool>) -> Seq<char> {
    Seq::new(s.len(), |i: int| if s[i] { '1' } else { '0' })
}

impl Lights {
    /// Builds a row of lights from text. Characters other than `0` and `1`
    /// are dropped; the row that remains must hold between one and
    /// `MAX_LIGHTS` lights.
    pub fn from_str(s: &str) -> (r: Result<Lights, SolverError>)
        ensures
            match r {
                Ok(l) => l@ == parse_bits(s@) && 1 <= l@.len() <= MAX_LIGHTS,
                Err(SolverError::NoLight) => parse_bits(s@).len() == 0,
                Err(SolverError::TooManyLights) => parse_bits(s@).len() > MAX_LIGHTS,
                Err(SolverError::IndexOutOfBounds) => false,
            },
    {
        let n = s.unicode_len();
        let mut bits: Vec<bool> = Vec::new();
        let mut i: usize = 0;
        while i < n
            invariant
                i <= n,
                n == s@.len(),
                bits@ == parse_bits(s@.take(i as int)),
            decreases n - i,
        {
            let c = s.get_char(i);
            proof {
                assert(s@.take(i + 1).drop_last() =~= s@.take(i as int));
                assert(s@.take(i + 1).last() == s@[i as int]);
            }
            if c == '1' {
                bits.push(true);
            } else if c == '0' {
                bits.push(false);
            }
            i += 1;
        }
        proof {
            assert(s@.take(n as int) =~= s@);
        }
        if bits.len() == 0 {
            return Err(SolverError::NoLight);
        }
        if bits.len() > MAX_LIGHTS {
            return Err(SolverError::TooManyLights);
        }
        Ok(Lights { bits })
    }

    /// The textual form of the row: one `1` or `0` character per light, in
    /// order. Rendering inverts parsing for text made of `0`s and `1`s.
    pub fn render(&self) -> (r: String)
        ensures
            r@ == render_spec(self@),
    {
        proof {
            reveal_strlit("1");
            reveal_strlit("0");
        }
        let n = self.bits.len();
        let mut out = String::new();
        let mut i: usize = 0;
        while i < n
            invariant
                i <= n,
                n == self@.len(),
                out@ == render_spec(self@).take(i as int),
                "1"@ =~= seq!['1'],
                "0"@ =~= seq!['0'],
            decreases n - i,
        {
            if self.bits[i] {
                out.append("1");
            } else {
                out.append("0");
            }
            proof {
                assert(out@ =~= render_spec(self@).take(i + 1));
            }
            i += 1;
        }
        proof {
            assert(render_spec(self@).take(n as int) =~= render_spec(self@));
        }
        out
    }
}

/// Re-parsing the rendered text of any row yields the row itself.
pub proof fn lemma_render_parse_round_trip(s: Seq<bool>)
    ensures
        parse_bits(render_spec(s)) == s,
    decreases s.len(),
{
    if s.len() == 0 {
        assert(parse_bits(render_spec(s)) =~= s);
    } else {
        lemma_render_parse_round_trip(s.drop_last());
        assert(render_spec(s).drop_last() =~= render_spec(s.drop_last()));
        assert(parse_bits(render_spec(s)) =~= s);
    }
}

/// A first differing position lies between the scan's start and the end of
/// the rows.
pub proof fn lemma_first_diff_range(a: Seq<bool>, b: Seq<bool>, from: int)
    ensures
        first_diff_spec(a, b, from) matches Some(d) ==> from <= d < a.len(),
    decreases a.len() - from,
{
    if 0 <= from < a.len() && a[from] == b[from] {
        lemma_first_diff_range(a, b, from + 1);
    }
}

/// Two rows of equal length with no differing position are equal.
pub proof fn lemma_no_diff_means_equal(a: Seq<bool>, b: Seq<bool>)
    requires
        a.len() == b.len(),
        first_diff_spec(a, b, 0) is None,
    ensures
        a == b,
{
    lemma_no_diff_from(a, b, 0);
    assert(a =~= b);
}

/// If no difference is found from `from` onward, the rows agree at every
/// position from `from` onward.
proof fn lemma_no_diff_from(a: Seq<bool>, b: Seq<bool>, from: int)
    requires
        a.len() == b.len(),
        0 <= from,
        first_diff_spec(a, b, from) is None,
    ensures
        forall|i: int| from <= i < a.len() ==> a[i] == b[i],
    decreases a.len() - from,
{
    if from < a.len() {
        lemma_no_diff_from(a, b, from + 1);
    }
}

/// Two rows of equal length that differ somewhere have a first differing
/// position.
pub proof fn lemma_first_diff_exists(a: Seq<bool>, b: Seq<bool>)
    requires
        a.len() == b.len(),
        a != b,
    ensures
        first_diff_spec(a, b, 0) is Some,
{
    if first_diff_spec(a, b, 0) is None {
        lemma_no_diff_means_equal(a, b);
    }
}

/// The boundary of the eligibility rule: in a row of length `n`, position
/// `n - 1` is always eligible, and position `n - 2` is eligible exactly when
/// the light at `n - 1` is lit.
pub proof fn lemma_eligibility_boundary(s: Seq<bool>)
    requires
        s.len() >= 1,
    ensures
        could_be_flipped_spec(s, s.len() - 1),
        s.len() >= 2 ==> (could_be_flipped_spec(s, s.len() - 2) <==> s[s.len() - 1]),
{
}

} // verus!
