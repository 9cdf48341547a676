use vstd::prelude::*;
use crate::sequence::{Sequence, weight_sum, pick, valid_table, in_table, over_table, choose_symbol, draw_below, lemma_pick_in_table};

verus! {

/// Why a tree could not be evolved.
#[derive(Debug, Clone, Copy, PartialEq, Eq, Structural)]
pub enum EvolveError {
    /// The tree has not been built.
    NoRoot,
    /// The root has no ancestral sequence.
    NoAncestral,
    /// A tip without an id.
    UnnamedTip,
    /// A symbol that the substitution model does not know.
    UnknownBase(u8),
}

/// A substitution model: draws ancestral sequences and mutates a sequence
/// along a branch. Every symbol it produces belongs to the frequency table of
/// the sequence it returns.
pub trait Mutator {
    /// A new sequence evolved from `s` along a branch whose length is the
    /// decimal text `v`.
    fn mutate(&self, s: &Sequence, v: &str) -> (r: Result<Sequence, EvolveError>)
        ensures
            r is Ok ==> r->Ok_0.wf() && r->Ok_0.symbols().len() == s.symbols().len()
                && over_table(r->Ok_0.symbols(), r->Ok_0.table()),
            r is Err ==> r->Err_0 is UnknownBase,
    ;

    /// A sequence of `l` symbols drawn from the model's stationary distribution.
    fn random(&self, l: usize) -> (r: Sequence)
        ensures
            r.wf(),
            r.symbols().len() == l,
            over_table(r.symbols(), r.table()),
    ;
}

/// Transition weights of one branch, discretised: `rows[i][j]` is the weight
/// of going from `bases[i]` to `bases[j]`; `weights` are the stationary
/// weights of the four bases.
pub struct Substitution {
    pub bases: [u8; 4],
    pub weights: [u64; 4],
    pub rows: [[u64; 4]; 4],
}

impl Substitution {
    /// The stationary frequency table.
    pub open spec fn table(&self) -> Seq<(u8, u64)> {
        seq![
            (self.bases@[0], self.weights@[0]),
            (self.bases@[1], self.weights@[1]),
            (self.bases@[2], self.weights@[2]),
            (self.bases@[3], self.weights@[3]),
        ]
    }

    /// Row `i` as a frequency table over the bases.
    pub open spec fn row(&self, i: int) -> Seq<(u8, u64)> {
        seq![
            (self.bases@[0], self.rows@[i]@[0]),
            (self.bases@[1], self.rows@[i]@[1]),
            (self.bases@[2], self.rows@[i]@[2]),
            (self.bases@[3], self.rows@[i]@[3]),
        ]
    }

    /// The row of base `b`: the first of the four bases equal to it.
    pub open spec fn row_of(&self, b: u8) -> int {
        if b == self.bases@[0] {
            0
        } else if b == self.bases@[1] {
            1
        } else if b == self.bases@[2] {
            2
        } else if b == self.bases@[3] {
            3
        } else {
            -1
        }
    }

    /// Stationary weights positive with a total that fits, every row with a
    /// positive total that fits.
    pub open spec fn wf(&self) -> bool {
        &&& valid_table(self.table())
        &&& forall|i: int| 0 <= i < 4 ==> 0 < #[trigger] weight_sum(self.row(i)) <= u64::MAX
    }

    /// `x` is what some draw below the row total makes of a site holding `b`.
    pub open spec fn some_draw(&self, b: u8, x: u8) -> bool {
        exists|d: nat| d < weight_sum(self.row(self.row_of(b))) && x == #[trigger] self.site(b, d)
    }

    /// Every base of the model is in the table `t`.
    pub open spec fn covered_by(&self, t: Seq<(u8, u64)>) -> bool {
        forall|j: int| 0 <= j < 4 ==> in_table(t, #[trigger] self.bases@[j])
    }

    /// The result of mutating one site holding `b` with the draw `r`.
    pub open spec fn site(&self, b: u8, r: nat) -> u8 {
        pick(self.row(self.row_of(b)), r)
    }

    fn row_index(&self, b: u8) -> (r: Option<usize>)
        ensures
            match r {
                Some(i) => i as int == self.row_of(b) && i < 4,
                None => self.row_of(b) == -1,
            },
    {
        if b == self.bases[0] {
            Some(0)
        } else if b == self.bases[1] {
            Some(1)
        } else if b == self.bases[2] {
            Some(2)
        } else if b == self.bases[3] {
            Some(3)
        } else {
            None
        }
    }

    fn row_table(&self, i: usize) -> (r: Vec<(u8, u64)>)
        requires
            i < 4,
        ensures
            r@ == self.row(i as int),
    {
        let r = vec![
            (self.bases[0], self.rows[i][0]),
            (self.bases[1], self.rows[i][1]),
            (self.bases[2], self.rows[i][2]),
            (self.bases[3], self.rows[i][3]),
        ];
        assert(r@ =~= self.row(i as int));
        r
    }

    proof fn lemma_row_sum(&self, i: int)
        ensures
            weight_sum(self.row(i)) == self.rows@[i]@[0] + self.rows@[i]@[1] + self.rows@[i]@[2] + self.rows@[i]@[3],
    {
        let t = self.row(i);
        assert(t.drop_first().drop_first().drop_first().drop_first() =~= Seq::<(u8, u64)>::empty());
        reveal_with_fuel(weight_sum, 5);
    }

    /// The total weight of the row of each base.
    pub fn row_total(&self, i: usize) -> (r: u64)
        requires
            self.wf(),
            i < 4,
        ensures
            r == weight_sum(self.row(i as int)),
    {
        proof {
            self.lemma_row_sum(i as int);
        }
        self.rows[i][0] + self.rows[i][1] + self.rows[i][2] + self.rows[i][3]
    }

    proof fn lemma_site_in_table(&self, b: u8, r: nat, t2: Seq<(u8, u64)>)
        requires
            self.wf(),
            self.covered_by(t2),
            self.row_of(b) != -1,
            r < weight_sum(self.row(self.row_of(b))),
        ensures
            in_table(self.table(), self.site(b, r)),
            in_table(t2, self.site(b, r)),
    {
        let t = self.row(self.row_of(b));
        let x = self.site(b, r);
        lemma_pick_in_table(t, r);
        let j = choose|j: int| 0 <= j < t.len() && #[trigger] t[j].0 == x;
        assert(self.table()[j].0 == x);
        assert(self.bases@[j] == x);
    }

    /// Mutates `s` site by site: the `i`-th site takes the cumulative choice of
    /// the `i`-th draw over the row of its base. Fails on the first symbol that
    /// is none of the four bases. The result keeps the input's frequency table.
    pub fn apply_with_draws(&self, s: &Sequence, draws: &Vec<u64>) -> (r: Result<Sequence, EvolveError>)
        requires
            self.wf(),
            s.wf(),
            self.covered_by(s.table()),
            draws.len() == s.symbols().len(),
            forall|i: int| 0 <= i < draws.len() && self.row_of(s.symbols()[i]) != -1
                ==> #[trigger] draws[i] < weight_sum(self.row(self.row_of(s.symbols()[i]))),
        ensures
            r is Ok <==> (forall|i: int| 0 <= i < s.symbols().len() ==> self.row_of(#[trigger] s.symbols()[i]) != -1),
            match r {
                Ok(t) => {
                    &&& t.wf()
                    &&& t.table() == s.table()
                    &&& t.symbols().len() == s.symbols().len()
                    &&& forall|i: int| 0 <= i < draws.len() ==> #[trigger] t.symbols()[i] == self.site(s.symbols()[i], draws[i] as nat)
                    &&& over_table(t.symbols(), self.table())
                    &&& over_table(t.symbols(), t.table())
                },
                Err(e) => exists|i: int| 0 <= i < s.symbols().len() && e == EvolveError::UnknownBase(#[trigger] s.symbols()[i])
                    && self.row_of(s.symbols()[i]) == -1,
            },
    {
        let mut out: Vec<u8> = Vec::new();
        let mut i: usize = 0;
        while i < s.len()
            invariant
                self.wf(),
                i <= s.symbols().len(),
                draws.len() == s.symbols().len(),
                forall|k: int| 0 <= k < draws.len() && self.row_of(s.symbols()[k]) != -1
                    ==> #[trigger] draws[k] < weight_sum(self.row(self.row_of(s.symbols()[k]))),
                out.len() == i,
                forall|k: int| 0 <= k < i ==> self.row_of(#[trigger] s.symbols()[k]) != -1,
                forall|k: int| 0 <= k < i ==> #[trigger] out[k] == self.site(s.symbols()[k], draws[k] as nat),
                over_table(out@, self.table()),
                over_table(out@, s.table()),
                s.wf(),
                self.covered_by(s.table()),
            decreases s.symbols().len() - i,
        {
            let b = s.get(i);
            match self.row_index(b) {
                None => {
                    return Err(EvolveError::UnknownBase(b));
                },
                Some(row) => {
                    let t = self.row_table(row);
                    let x = choose_symbol(&t, draws[i]);
                    proof {
                        self.lemma_site_in_table(b, draws[i as int] as nat, s.table());
                    }
                    out.push(x);
                },
            }
            i = i + 1;
        }
        let table = s.table_vec();
        Ok(Sequence::from_vec(out, &table))
    }

    /// Mutates `s` site by site with random draws; fails on a symbol that is
    /// none of the four bases. The result keeps the input's frequency table.
    pub fn apply(&self, s: &Sequence) -> (r: Result<Sequence, EvolveError>)
        requires
            self.wf(),
            s.wf(),
            self.covered_by(s.table()),
        ensures
            r is Ok <==> (forall|i: int| 0 <= i < s.symbols().len() ==> self.row_of(#[trigger] s.symbols()[i]) != -1),
            match r {
                Ok(t) => {
                    &&& t.wf()
                    &&& t.table() == s.table()
                    &&& t.symbols().len() == s.symbols().len()
                    &&& forall|i: int| 0 <= i < s.symbols().len() ==> self.some_draw(s.symbols()[i], #[trigger] t.symbols()[i])
                    &&& over_table(t.symbols(), self.table())
                    &&& over_table(t.symbols(), t.table())
                },
                Err(e) => exists|i: int| 0 <= i < s.symbols().len() && e == EvolveError::UnknownBase(#[trigger] s.symbols()[i])
                    && self.row_of(s.symbols()[i]) == -1,
            },
    {
        let mut draws: Vec<u64> = Vec::new();
        let mut i: usize = 0;
        while i < s.len()
            invariant
                self.wf(),
                i <= s.symbols().len(),
                draws.len() == i,
                forall|k: int| 0 <= k < i && self.row_of(s.symbols()[k]) != -1
                    ==> #[trigger] draws[k] < weight_sum(self.row(self.row_of(s.symbols()[k]))),
            decreases s.symbols().len() - i,
        {
            match self.row_index(s.get(i)) {
                None => draws.push(0),
                Some(row) => {
                    let total = self.row_total(row);
                    draws.push(draw_below(total));
                },
            }
            i = i + 1;
        }
        let r = self.apply_with_draws(s, &draws);
        proof {
            if r is Ok {
                let t = r->Ok_0;
                assert forall|i: int| 0 <= i < s.symbols().len() implies self.some_draw(s.symbols()[i], #[trigger] t.symbols()[i]) by {
                    assert(self.row_of(s.symbols()[i]) != -1);
                    let d = draws[i] as nat;
                    assert(d < weight_sum(self.row(self.row_of(s.symbols()[i]))));
                    assert(t.symbols()[i] == self.site(s.symbols()[i], d));
                }
            }
        }
        r
    }
}

/// A branch of length zero changes nothing: when every row puts all its
/// weight on its own base (and the four bases differ), the site keeps its
/// base whatever the draw.
pub proof fn lemma_diagonal_keeps_sites(sub: Substitution, b: u8, r: nat)
    requires
        sub.wf(),
        forall|i: int, j: int| 0 <= i < 4 && 0 <= j < 4 && i != j ==> #[trigger] sub.bases@[i] != #[trigger] sub.bases@[j],
        forall|i: int, j: int| 0 <= i < 4 && 0 <= j < 4 && i != j ==> #[trigger] sub.rows@[i]@[j] == 0,
        sub.row_of(b) != -1,
        r < weight_sum(sub.row(sub.row_of(b))),
    ensures
        sub.site(b, r) == b,
{
    let i = sub.row_of(b);
    let t = sub.row(i);
    sub.lemma_row_sum(i);
    assert(sub.rows@[i]@[0] == 0 || i == 0);
    assert(sub.rows@[i]@[1] == 0 || i == 1);
    assert(sub.rows@[i]@[2] == 0 || i == 2);
    assert(sub.rows@[i]@[3] == 0 || i == 3);
    assert(t.drop_first().drop_first().drop_first().drop_first() =~= Seq::<(u8, u64)>::empty());
    reveal_with_fuel(pick, 5);
}

} // verus!
