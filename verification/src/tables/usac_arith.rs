//! The context model and the frequency tables of USAC spectral coding.
//!
//! Spectral lines are coded in pairs. The table that a pair is coded with
//! depends on its neighbours: the pairs just coded in this block and the pairs
//! around it in the block before. [`Contexts`] remembers, for both blocks, how
//! large each pair was; [`ArithTables`] turns the number that
//! [`Contexts::get_context`] computes from them into a cumulative-frequency
//! table.

use crate::range;
use vstd::prelude::*;

verus! {

/// The symbol that announces one more bit plane for both lines of a pair.
pub const ESCAPE: i32 = 16;

/// The number of pairs in the longest block.
pub const MAX_PAIRS: usize = 512;

/// The number of contexts: sixteen bits of neighbours, one bit for a quiet
/// neighbourhood and three bits for the number of escapes.
pub const NUM_CONTEXTS: usize = 0x10_0000;

/// How large the pairs of two consecutive blocks were, each on a scale from
/// zero to fifteen; zero is a pair that was not coded.
pub struct Contexts {
    prev: [u8; 512],
    pres: [u8; 512],
}

/// What [`Contexts`] remember.
#[verifier::ext_equal]
pub struct History {
    pub prev: Seq<u8>,
    pub pres: Seq<u8>,
}

/// Entry `i` of a block; zero beyond its ends.
pub open spec fn entry(s: Seq<u8>, i: int) -> int {
    if 0 <= i < s.len() {
        s[i] as int
    } else {
        0
    }
}

impl History {
    /// Two blocks of which nothing is known.
    pub open spec fn fresh() -> History {
        History {
            prev: Seq::new(MAX_PAIRS as nat, |i: int| 0u8),
            pres: Seq::new(MAX_PAIRS as nat, |i: int| 0u8),
        }
    }

    pub open spec fn is_valid(self) -> bool {
        &&& self.prev.len() == MAX_PAIRS
        &&& self.pres.len() == MAX_PAIRS
        &&& forall|i: int| 0 <= i < MAX_PAIRS ==> #[trigger] self.prev[i] <= 15
        &&& forall|i: int| 0 <= i < MAX_PAIRS ==> #[trigger] self.pres[i] <= 15
    }

    /// What is carried from the context of pair `i - 1` to that of pair `i`:
    /// the pair above to the right comes in at the top, the pair just coded
    /// replaces the lowest.
    pub open spec fn carried(self, i: int, state: int) -> int {
        ((state / 16 + entry(self.prev, i + 1) * 4096) % 65536) / 16 * 16 + entry(self.pres, i - 1)
    }

    /// The context of pair `i`: what is carried, and whether the last three
    /// pairs were small.
    pub open spec fn context(self, i: int, state: int) -> int {
        self.carried(i, state) + if i > 3 && entry(self.pres, i - 1) + entry(self.pres, i - 2)
            + entry(self.pres, i - 3) < 5 {
            0x10000int
        } else {
            0
        }
    }

    /// The carried state in front of the first pair.
    pub open spec fn first_state(self) -> int {
        entry(self.prev, 0) * 4096
    }

    /// Records the size of pair `i`.
    pub open spec fn with_pair(self, i: int, size: int) -> History {
        History { prev: self.prev, pres: self.pres.update(i, size as u8) }
    }

    /// Marks the pairs from `from` to `to` as coded zeros.
    pub open spec fn with_zeros(self, from: int, to: int) -> History {
        History {
            prev: self.prev,
            pres: Seq::new(
                self.pres.len(),
                |i: int|
                    if from <= i < to {
                        1u8
                    } else {
                        self.pres[i]
                    },
            ),
        }
    }

    /// The next block: the first `len` pairs of this one become the block
    /// before, and nothing is known of the new one.
    pub open spec fn advanced(self, len: int) -> History {
        History {
            prev: Seq::new(
                self.prev.len(),
                |i: int|
                    if i < len {
                        self.pres[i]
                    } else {
                        0u8
                    },
            ),
            pres: Seq::new(self.pres.len(), |i: int| 0u8),
        }
    }
}

/// The size of a pair of magnitudes: their sum and one, at most fifteen.
pub open spec fn pair_size(a: int, b: int) -> int {
    if a + b + 1 < 15 {
        a + b + 1
    } else {
        15
    }
}

/// Contexts stay in their range.
pub(crate) proof fn lemma_context_range(h: History, i: int, state: int)
    requires
        h.is_valid(),
        0 <= state < 65536,
    ensures
        0 <= h.carried(i, state) < 65536,
        0 <= h.context(i, state) < 0x20000,
        0 <= h.first_state() < 65536,
{
}

impl View for Contexts {
    type V = History;

    closed spec fn view(&self) -> History {
        History { prev: self.prev@, pres: self.pres@ }
    }
}

impl Clone for Contexts {
    fn clone(&self) -> (r: Self)
        ensures
            r@ == self@,
    {
        proof {
            use_type_invariant(self);
        }
        Contexts { prev: self.prev, pres: self.pres }
    }
}

impl Contexts {
    #[verifier::type_invariant]
    closed spec fn inv(self) -> bool {
        self@.is_valid()
    }

    pub fn new() -> (r: Self)
        ensures
            r@ == History::fresh(),
            r@.is_valid(),
    {
        let r = Contexts { prev: [0u8;512], pres: [0u8;512] };
        assert(r@ =~= History::fresh());
        r
    }

    /// The size of pair `i` of the block before.
    pub fn prev(&self, i: usize) -> (r: i32)
        ensures
            r == entry(self@.prev, i as int),
            0 <= r <= 15,
            self@.is_valid(),
    {
        proof {
            use_type_invariant(self);
        }
        if i < MAX_PAIRS {
            assert(self@.prev[i as int] <= 15);
            self.prev[i] as i32
        } else {
            0
        }
    }

    /// The size of pair `i` of this block; zero in front of the first pair.
    pub fn pres(&self, i: isize) -> (r: i32)
        ensures
            r == entry(self@.pres, i as int),
            0 <= r <= 15,
    {
        proof {
            use_type_invariant(self);
        }
        if 0 <= i && i < MAX_PAIRS as isize {
            assert(self@.pres[i as int] <= 15);
            self.pres[i as usize] as i32
        } else {
            0
        }
    }

    /// The context of pair `i`; `state` goes from pair to pair.
    pub fn get_context(&self, i: usize, state: &mut u32) -> (r: u32)
        requires
            i < MAX_PAIRS,
            *old(state) < 65536,
        ensures
            *final(state) == self@.carried(i as int, *old(state) as int),
            r == self@.context(i as int, *old(state) as int),
            *final(state) < 65536,
            r < 0x20000,
            self@.is_valid(),
    {
        proof {
            use_type_invariant(self);
            lemma_context_range(self@, i as int, *state as int);
        }
        let at: isize = i as isize;
        let above: u32 = self.prev(i + 1) as u32;
        let one: u32 = self.pres(at - 1) as u32;
        let c: u32 = (*state / 16 + above * 4096) % 65536 / 16 * 16 + one;
        *state = c;
        if i > 3 {
            let two: u32 = self.pres(at - 2) as u32;
            let three: u32 = self.pres(at - 3) as u32;
            if one + two + three < 5 {
                return c + 0x10000;
            }
        }
        c
    }

    /// Records the size of pair `i`.
    pub fn set_pres(&mut self, i: isize, size: i32)
        requires
            0 <= i < MAX_PAIRS,
            0 <= size <= 15,
        ensures
            final(self)@ == old(self)@.with_pair(i as int, size as int),
    {
        proof {
            use_type_invariant(&*self);
        }
        let mut pres: [u8; 512] = self.pres;
        pres[i as usize] = size as u8;
        self.pres = pres;
        assert(self@ =~= old(self)@.with_pair(i as int, size as int));
    }

    /// Marks the pairs from `from` to `to` as coded zeros.
    pub fn set_zeros(&mut self, from: usize, to: usize)
        requires
            from <= to <= MAX_PAIRS,
        ensures
            final(self)@ == old(self)@.with_zeros(from as int, to as int),
    {
        let mut i: usize = from;
        assert(self@ =~= old(self)@.with_zeros(from as int, from as int));
        while i < to
            invariant
                from <= i <= to <= MAX_PAIRS,
                self@ == old(self)@.with_zeros(from as int, i as int),
            decreases to - i,
        {
            proof {
                use_type_invariant(&*self);
            }
            self.set_pres(i as isize, 1);
            assert(self@ =~= old(self)@.with_zeros(from as int, i + 1));
            i += 1;
        }
    }

    /// Moves on to the next block.
    pub fn advance(&mut self, len: usize)
        requires
            len <= MAX_PAIRS,
        ensures
            final(self)@ == old(self)@.advanced(len as int),
            final(self)@.is_valid(),
    {
        proof {
            use_type_invariant(&*self);
        }
        let mut prev: [u8; 512] = [0u8;512];
        let mut i: usize = 0;
        while i < len
            invariant
                i <= len <= MAX_PAIRS,
                self@ == old(self)@,
                self@.is_valid(),
                prev@.len() == MAX_PAIRS,
                forall|j: int| 0 <= j < i ==> #[trigger] prev@[j] == self@.pres[j],
                forall|j: int| i <= j < MAX_PAIRS ==> #[trigger] prev@[j] == 0,
            decreases len - i,
        {
            prev[i] = self.pres[i];
            i += 1;
        }
        proof {
            assert forall|j: int| 0 <= j < MAX_PAIRS implies #[trigger] prev@[j] <= 15 by {
                if j < len {
                    assert(prev@[j] == self@.pres[j]);
                }
            }
        }
        self.prev = prev;
        self.pres = [0u8;512];
        assert(self@ =~= old(self)@.advanced(len as int));
    }
}

/// The cumulative-frequency tables of the coder.
pub struct ArithTables {
    rows: Vec<u8>,
    symbols: Vec<[u16; 17]>,
    planes: [[u16; 4]; 3],
}

/// Which tables there are and which context selects which.
#[verifier::ext_equal]
pub struct Model {
    /// The row of `symbols` for each context.
    pub rows: Seq<u8>,
    /// Tables for a pair of two-bit magnitudes or the escape.
    pub symbols: Seq<Seq<u16>>,
    /// Tables for one more bit of both magnitudes, by which of the two are
    /// zero so far.
    pub planes: Seq<Seq<u16>>,
}

impl Model {
    pub open spec fn is_valid(self) -> bool {
        &&& self.rows.len() == NUM_CONTEXTS
        &&& forall|i: int|
            0 <= i < self.rows.len() ==> (#[trigger] self.rows[i] as int) < self.symbols.len()
        &&& forall|i: int|
            0 <= i < self.symbols.len() ==> {
                &&& (#[trigger] self.symbols[i]).len() == 17
                &&& range::is_table(self.symbols[i])
            }
        &&& self.planes.len() == 3
        &&& forall|i: int|
            0 <= i < 3 ==> {
                &&& (#[trigger] self.planes[i]).len() == 4
                &&& range::is_table(self.planes[i])
            }
    }

    /// The table for a pair in `context` after `escapes` escapes.
    pub open spec fn symbol_table(self, context: int, escapes: int) -> Seq<u16> {
        self.symbols[self.rows[context + escapes * 0x20000] as int]
    }

    /// The table for one more bit of `a` and `b`.
    pub open spec fn plane_table(self, a: int, b: int) -> Seq<u16> {
        self.planes[if a == 0 {
            1
        } else if b == 0 {
            0
        } else {
            2
        }]
    }
}

impl View for ArithTables {
    type V = Model;

    closed spec fn view(&self) -> Model {
        Model {
            rows: self.rows@,
            symbols: Seq::new(self.symbols@.len(), |i: int| self.symbols@[i]@),
            planes: Seq::new(3, |i: int| self.planes@[i]@),
        }
    }
}

/// Whether a slice is a cumulative-frequency table.
fn check_table(cf: &[u16]) -> (r: bool)
    ensures
        r == range::is_table(cf@),
{
    let n: usize = cf.len();
    if n < 2 {
        return false;
    }
    if cf[0] >= 16384 || cf[n - 1] != 0 {
        return false;
    }
    let mut i: usize = 1;
    while i < n
        invariant
            1 <= i <= n == cf@.len(),
            forall|j: int, k: int| 0 <= j < k < i ==> cf@[j] > cf@[k],
        decreases n - i,
    {
        if cf[i] >= cf[i - 1] {
            assert(!(cf@[i - 1] > cf@[i as int]));
            return false;
        }
        assert forall|j: int, k: int| 0 <= j < k < i + 1 implies cf@[j] > cf@[k] by {
            if k == i && j < i - 1 {
                assert(cf@[j] > cf@[i - 1]);
            }
        }
        i += 1;
    }
    true
}

impl ArithTables {
    #[verifier::type_invariant]
    closed spec fn inv(self) -> bool {
        self@.is_valid()
    }

    /// The model that the arguments of [`ArithTables::new`] describe.
    pub open spec fn described(rows: Vec<u8>, symbols: Vec<[u16; 17]>, planes: [[u16; 4]; 3]) -> Model {
        Model {
            rows: rows@,
            symbols: Seq::new(symbols@.len(), |i: int| symbols@[i]@),
            planes: Seq::new(3, |i: int| planes@[i]@),
        }
    }

    /// Tables from their entries; nothing where they do not make up a model.
    pub fn new(rows: Vec<u8>, symbols: Vec<[u16; 17]>, planes: [[u16; 4]; 3]) -> (r: Option<Self>)
        ensures
            r is Some <==> Self::described(rows, symbols, planes).is_valid(),
            r matches Some(t) ==> t@ == Self::described(rows, symbols, planes),
    {
        let ghost m = Self::described(rows, symbols, planes);
        if rows.len() != NUM_CONTEXTS {
            return None;
        }
        let mut i: usize = 0;
        while i < rows.len()
            invariant
                i <= rows@.len(),
                m == Self::described(rows, symbols, planes),
                forall|j: int|
                    0 <= j < i ==> (#[trigger] m.rows[j] as int) < m.symbols.len(),
            decreases rows@.len() - i,
        {
            if rows[i] as usize >= symbols.len() {
                assert(!((m.rows[i as int] as int) < m.symbols.len()));
                return None;
            }
            i += 1;
        }
        let mut i: usize = 0;
        while i < symbols.len()
            invariant
                i <= symbols@.len(),
                m == Self::described(rows, symbols, planes),
                forall|j: int|
                    0 <= j < i ==> {
                        &&& (#[trigger] m.symbols[j]).len() == 17
                        &&& range::is_table(m.symbols[j])
                    },
            decreases symbols@.len() - i,
        {
            assert(m.symbols[i as int] == symbols@[i as int]@);
            if !check_table(symbols[i].as_slice()) {
                return None;
            }
            i += 1;
        }
        let mut i: usize = 0;
        while i < 3
            invariant
                i <= 3,
                m == Self::described(rows, symbols, planes),
                forall|j: int|
                    0 <= j < i ==> {
                        &&& (#[trigger] m.planes[j]).len() == 4
                        &&& range::is_table(m.planes[j])
                    },
            decreases 3 - i,
        {
            assert(m.planes[i as int] == planes@[i as int]@);
            if !check_table(planes[i].as_slice()) {
                return None;
            }
            i += 1;
        }
        let t = ArithTables { rows, symbols, planes };
        assert(t@ == m);
        Some(t)
    }

    /// The row of the tables that a context selects.
    pub fn context_pk(&self, context: u32) -> (r: usize)
        requires
            context < NUM_CONTEXTS,
        ensures
            r == self@.rows[context as int],
            r < self@.symbols.len(),
    {
        proof {
            use_type_invariant(self);
            assert((self@.rows[context as int] as int) < self@.symbols.len());
        }
        self.rows[context as usize] as usize
    }

    /// The table for a pair in `context` after `escapes` escapes.
    pub fn symbol_table(&self, context: u32, escapes: u32) -> (r: &[u16])
        requires
            context < 0x20000,
            escapes < 8,
        ensures
            r@ == self@.symbol_table(context as int, escapes as int),
            r@.len() == 17,
            range::is_table(r@),
            self@.is_valid(),
    {
        proof {
            use_type_invariant(self);
        }
        let pki: usize = self.context_pk(context + escapes * 0x20000);
        assert(self@.symbols[pki as int] == self.symbols@[pki as int]@);
        self.symbols[pki].as_slice()
    }

    /// The table for one more bit of `a` and `b`.
    pub fn plane_table(&self, a: i32, b: i32) -> (r: &[u16])
        ensures
            r@ == self@.plane_table(a as int, b as int),
            r@.len() == 4,
            range::is_table(r@),
    {
        proof {
            use_type_invariant(self);
        }
        let lsbidx: usize = if a == 0 {
            1
        } else if b == 0 {
            0
        } else {
            2
        };
        assert(self@.planes[lsbidx as int] == self.planes@[lsbidx as int]@);
        self.planes[lsbidx].as_slice()
    }
}

} // verus!
