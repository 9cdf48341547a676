use vstd::prelude::*;
use crate::text::push_char;

verus! {

/// Sum of the weights of a frequency table.
pub open spec fn weight_sum(t: Seq<(u8, u64)>) -> nat
    decreases t.len(),
{
    if t.len() == 0 {
        0
    } else {
        (t[0].1 + weight_sum(t.drop_first())) as nat
    }
}

/// Cumulative-weight choice: the symbol of the first entry whose running
/// weight total exceeds `r`.
pub open spec fn pick(t: Seq<(u8, u64)>, r: nat) -> u8
    decreases t.len(),
{
    if t.len() == 0 {
        0
    } else if r < t[0].1 {
        t[0].0
    } else {
        pick(t.drop_first(), (r - t[0].1) as nat)
    }
}

/// A usable frequency table: at least one entry, every weight positive, and a
/// total that fits in a `u64`.
pub open spec fn valid_table(t: Seq<(u8, u64)>) -> bool {
    &&& t.len() > 0
    &&& forall|i: int| 0 <= i < t.len() ==> #[trigger] t[i].1 > 0
    &&& weight_sum(t) <= u64::MAX
}

/// `b` is the symbol of some entry of `t`.
pub open spec fn in_table(t: Seq<(u8, u64)>, b: u8) -> bool {
    exists|j: int| 0 <= j < t.len() && #[trigger] t[j].0 == b
}

/// Every symbol of `s` belongs to the table `t`.
pub open spec fn over_table(s: Seq<u8>, t: Seq<(u8, u64)>) -> bool {
    forall|i: int| 0 <= i < s.len() ==> in_table(t, #[trigger] s[i])
}

/// The symbols of `s` read as characters.
pub open spec fn as_chars(s: Seq<u8>) -> Seq<char> {
    s.map_values(|b: u8| b as char)
}

pub proof fn lemma_pick_in_table(t: Seq<(u8, u64)>, r: nat)
    requires
        r < weight_sum(t),
    ensures
        in_table(t, pick(t, r)),
    decreases t.len(),
{
    if r >= t[0].1 {
        lemma_pick_in_table(t.drop_first(), (r - t[0].1) as nat);
        let j = choose|j: int| 0 <= j < t.drop_first().len() && #[trigger] t.drop_first()[j].0 == pick(t.drop_first(), (r - t[0].1) as nat);
        assert(t[j + 1].0 == pick(t, r));
    } else {
        assert(t[0].0 == pick(t, r));
    }
}

/// Total weight of a frequency table (all weights must be positive).
pub fn get_cumulative(t: &Vec<(u8, u64)>) -> (r: u64)
    requires
        valid_table(t@),
    ensures
        r == weight_sum(t@),
{
    let mut total: u64 = 0;
    let mut i: usize = t.len();
    assert(t@.skip(i as int) =~= Seq::<(u8, u64)>::empty());
    while i > 0
        invariant
            i <= t.len(),
            valid_table(t@),
            total == weight_sum(t@.skip(i as int)),
        decreases i,
    {
        i = i - 1;
        assert(t@.skip(i as int).drop_first() =~= t@.skip(i as int + 1));
        proof {
            lemma_skip_sum_bound(t@, i as int);
        }
        total = total + t[i].1;
    }
    assert(t@.skip(0) =~= t@);
    total
}

proof fn lemma_skip_sum_bound(t: Seq<(u8, u64)>, i: int)
    requires
        0 <= i <= t.len(),
    ensures
        weight_sum(t.skip(i)) <= weight_sum(t),
    decreases i,
{
    if i > 0 {
        assert(t.skip(i) =~= t.drop_first().skip(i - 1));
        lemma_skip_sum_bound(t.drop_first(), i - 1);
    } else {
        assert(t.skip(i) =~= t);
    }
}

/// Cumulative-weight choice from a draw `r` below the table's total weight.
pub fn choose_symbol(t: &Vec<(u8, u64)>, r: u64) -> (b: u8)
    requires
        r < weight_sum(t@),
    ensures
        b == pick(t@, r as nat),
        in_table(t@, b),
{
    proof {
        lemma_pick_in_table(t@, r as nat);
    }
    let mut rest: u64 = r;
    let mut i: usize = 0;
    assert(t@.skip(0) =~= t@);
    while i < t.len()
        invariant
            i <= t.len(),
            pick(t@, r as nat) == pick(t@.skip(i as int), rest as nat),
            rest < weight_sum(t@.skip(i as int)),
        decreases t.len() - i,
    {
        assert(t@.skip(i as int).drop_first() =~= t@.skip(i as int + 1));
        if rest < t[i].1 {
            return t[i].0;
        }
        rest = rest - t[i].1;
        i = i + 1;
    }
    assert(t@.skip(i as int) =~= Seq::<(u8, u64)>::empty());
    0
}

/// An element-for-element copy of `v`.
fn copy_vec<T: Copy>(v: &Vec<T>) -> (r: Vec<T>)
    ensures
        r@ == v@,
{
    let mut r: Vec<T> = Vec::new();
    let mut i: usize = 0;
    while i < v.len()
        invariant
            i <= v.len(),
            r@ == v@.take(i as int),
        decreases v.len() - i,
    {
        r.push(v[i]);
        i = i + 1;
        assert(r@ =~= v@.take(i as int));
    }
    assert(v@.take(i as int) =~= v@);
    r
}

/// Relies on rand's `Rng::gen_range` on the thread-local generator: a value
/// in `[0, bound)` (it panics on an empty range, hence the requirement).
#[verifier::external_body]
pub(crate) fn draw_below(bound: u64) -> (r: u64)
    requires
        bound > 0,
    ensures
        r < bound,
{
    rand::Rng::gen_range(&mut rand::thread_rng(), 0..bound)
}

/// A nucleotide sequence together with the weighted alphabet it is drawn from.
pub struct Sequence {
    pub nucleotides: Vec<u8>,
    size: usize,
    freq_table: Vec<(u8, u64)>,
    max_freq: u64,
}

impl Clone for Sequence {
    fn clone(&self) -> (r: Sequence)
        ensures
            r.symbols() == self.symbols(),
            r.table() == self.table(),
            r.wf() == self.wf(),
    {
        let r = Sequence {
            nucleotides: copy_vec(&self.nucleotides),
            size: self.size,
            freq_table: copy_vec(&self.freq_table),
            max_freq: self.max_freq,
        };
        assert(r.nucleotides@ =~= self.nucleotides@);
        assert(r.freq_table@ =~= self.freq_table@);
        r
    }
}

impl Sequence {
    /// The symbols of the sequence.
    pub closed spec fn symbols(&self) -> Seq<u8> {
        self.nucleotides@
    }

    /// The frequency table of the sequence.
    pub closed spec fn table(&self) -> Seq<(u8, u64)> {
        self.freq_table@
    }

    /// The table is usable, and the recorded size and total match.
    pub closed spec fn wf(&self) -> bool {
        &&& valid_table(self.freq_table@)
        &&& self.max_freq == weight_sum(self.freq_table@)
        &&& self.size == self.nucleotides.len()
        &&& over_table(self.nucleotides@, self.freq_table@)
    }

    /// A sequence of `l` symbols drawn at random from the table `t`.
    pub fn new(t: &Vec<(u8, u64)>, l: usize) -> (r: Sequence)
        requires
            valid_table(t@),
        ensures
            r.wf(),
            r.table() == t@,
            r.symbols().len() == l,
            over_table(r.symbols(), t@),
    {
        let cumulative_freq = get_cumulative(t);
        let mut ret = Sequence {
            nucleotides: Vec::new(),
            size: 0,
            freq_table: copy_vec(t),
            max_freq: cumulative_freq,
        };
        assert(ret.freq_table@ =~= t@);
        ret.append(l);
        ret
    }

    /// A sequence holding exactly the symbols `s` over the table `t`.
    pub fn from_vec(s: Vec<u8>, t: &Vec<(u8, u64)>) -> (r: Sequence)
        requires
            valid_table(t@),
            over_table(s@, t@),
        ensures
            r.wf(),
            r.table() == t@,
            r.symbols() == s@,
    {
        let cumulative_freq = get_cumulative(t);
        let len = s.len();
        let r = Sequence { nucleotides: s, size: len, freq_table: copy_vec(t), max_freq: cumulative_freq };
        assert(r.freq_table@ =~= t@);
        r
    }

    /// A sequence over the table `t` whose `i`-th symbol is the cumulative
    /// choice made by the `i`-th draw.
    pub fn from_draws(t: &Vec<(u8, u64)>, draws: &Vec<u64>) -> (r: Sequence)
        requires
            valid_table(t@),
            forall|i: int| 0 <= i < draws.len() ==> #[trigger] draws[i] < weight_sum(t@),
        ensures
            r.wf(),
            r.table() == t@,
            r.symbols().len() == draws.len(),
            forall|i: int| 0 <= i < draws.len() ==> #[trigger] r.symbols()[i] == pick(t@, draws[i] as nat),
            over_table(r.symbols(), t@),
    {
        let mut v: Vec<u8> = Vec::new();
        let mut i: usize = 0;
        while i < draws.len()
            invariant
                i <= draws.len(),
                v.len() == i,
                forall|k: int| 0 <= k < draws.len() ==> #[trigger] draws[k] < weight_sum(t@),
                forall|k: int| 0 <= k < i ==> #[trigger] v[k] == pick(t@, draws[k] as nat),
                over_table(v@, t@),
            decreases draws.len() - i,
        {
            let b = choose_symbol(t, draws[i]);
            v.push(b);
            i = i + 1;
        }
        Sequence::from_vec(v, t)
    }

    /// Appends `l` symbols drawn at random from the sequence's table.
    pub fn append(&mut self, l: usize)
        requires
            old(self).wf(),
            old(self).symbols().len() + l <= usize::MAX,
        ensures
            final(self).wf(),
            final(self).table() == old(self).table(),
            final(self).symbols().len() == old(self).symbols().len() + l,
            final(self).symbols().take(old(self).symbols().len() as int) == old(self).symbols(),
            over_table(final(self).symbols(), final(self).table()),
    {
        let ghost start = self.nucleotides@;
        let mut k: usize = 0;
        while k < l
            invariant
                k <= l,
                self.wf(),
                self.table() == old(self).table(),
                self.nucleotides.len() == start.len() + k,
                self.nucleotides@.take(start.len() as int) == start,
                over_table(self.nucleotides@, self.table()),
                start == old(self).nucleotides@,
                start.len() + l <= usize::MAX,
            decreases l - k,
        {
            let r = draw_below(self.max_freq);
            let b = choose_symbol(&self.freq_table, r);
            let ghost before = self.nucleotides@;
            self.nucleotides.push(b);
            self.size = self.size + 1;
            assert(self.nucleotides@.take(start.len() as int) =~= before.take(start.len() as int));
            k = k + 1;
        }
    }

    /// The sequence's symbols as text, one character per symbol.
    pub fn to_string(&self) -> (r: String)
        ensures
            r@ == as_chars(self.symbols()),
    {
        let mut r = String::new();
        let mut i: usize = 0;
        while i < self.nucleotides.len()
            invariant
                i <= self.nucleotides.len(),
                r@ == as_chars(self.nucleotides@.take(i as int)),
            decreases self.nucleotides.len() - i,
        {
            push_char(&mut r, self.nucleotides[i] as char);
            i = i + 1;
            assert(as_chars(self.nucleotides@.take(i as int)) =~= as_chars(self.nucleotides@.take(i as int - 1)).push(self.nucleotides@[i as int - 1] as char));
        }
        assert(self.nucleotides@.take(i as int) =~= self.nucleotides@);
        r
    }

    /// A well-formed sequence holds only symbols of its table.
    pub proof fn lemma_wf_over(&self)
        requires
            self.wf(),
        ensures
            over_table(self.symbols(), self.table()),
    {
    }

    /// A copy of the frequency table.
    pub fn table_vec(&self) -> (r: Vec<(u8, u64)>)
        requires
            self.wf(),
        ensures
            r@ == self.table(),
            valid_table(r@),
    {
        copy_vec(&self.freq_table)
    }

    /// The symbol at position `i`.
    pub fn get(&self, i: usize) -> (r: u8)
        requires
            i < self.symbols().len(),
        ensures
            r == self.symbols()[i as int],
    {
        self.nucleotides[i]
    }

    /// Number of symbols.
    pub fn len(&self) -> (r: usize)
        ensures
            r == self.symbols().len(),
    {
        self.nucleotides.len()
    }
}

} // verus!
