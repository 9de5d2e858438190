use vstd::prelude::*;

use crate::color::{rgb_encodes, Color};

verus! {

/// A colour ramp under its name.
#[derive(Clone, Debug)]
pub struct NamedRamp {
    pub name: String,
    pub colors: Vec<Color>,
}

/// A set of named colour ramps, loaded once and read by every worker.
/// Names are unique.
#[derive(Clone, Debug)]
pub struct PaletteTable {
    ramps: Vec<NamedRamp>,
}

/// Whether `name` is the name of one of `ramps`.
pub open spec fn has_name(ramps: Seq<NamedRamp>, name: Seq<char>) -> bool {
    exists|i: int| 0 <= i < ramps.len() && #[trigger] ramps[i].name@ == name
}

/// The position of the ramp named `name` in `ramps`.
pub open spec fn index_of(ramps: Seq<NamedRamp>, name: Seq<char>) -> int {
    choose|i: int| 0 <= i < ramps.len() && #[trigger] ramps[i].name@ == name
}

/// No two ramps share a name.
pub open spec fn unique_names(ramps: Seq<NamedRamp>) -> bool {
    forall|i: int, j: int|
        0 <= i < ramps.len() && 0 <= j < ramps.len() && #[trigger] ramps[i].name@
            == #[trigger] ramps[j].name@ ==> i == j
}

proof fn lemma_index_of(ramps: Seq<NamedRamp>, name: Seq<char>, j: int)
    requires
        unique_names(ramps),
        0 <= j < ramps.len(),
        ramps[j].name@ == name,
    ensures
        has_name(ramps, name),
        index_of(ramps, name) == j,
{
    assert(has_name(ramps, name));
}

impl PaletteTable {
    /// The table as a map from names to ramps.
    pub closed spec fn view(&self) -> Map<Seq<char>, Seq<Color>> {
        Map::new(
            |n: Seq<char>| has_name(self.ramps@, n),
            |n: Seq<char>| self.ramps@[index_of(self.ramps@, n)].colors@,
        )
    }

    /// Names are unique.
    pub closed spec fn wf(&self) -> bool {
        unique_names(self.ramps@)
    }

    /// An empty table.
    pub fn new() -> (t: PaletteTable)
        ensures
            t.wf(),
            t@ == Map::<Seq<char>, Seq<Color>>::empty(),
    {
        let t = PaletteTable { ramps: Vec::new() };
        assert(t@ =~= Map::<Seq<char>, Seq<Color>>::empty());
        t
    }

    /// Stores `colors` under `name`, replacing a ramp of that name.
    pub fn insert(&mut self, name: String, colors: Vec<Color>)
        requires
            old(self).wf(),
        ensures
            final(self).wf(),
            final(self)@ == old(self)@.insert(name@, colors@),
    {
        let ghost before = self.ramps@;
        let mut i: usize = 0;
        while i < self.ramps.len()
            invariant
                self.ramps@ == before,
                old(self).ramps@ == before,
                unique_names(before),
                0 <= i <= before.len(),
                forall|k: int| 0 <= k < i ==> #[trigger] before[k].name@ != name@,
            decreases before.len() - i,
        {
            if self.ramps[i].name == name {
                let ghost n = name@;
                assert(before[i as int].name@ == n);
                self.ramps.set(i, NamedRamp { name, colors });
                proof {
                    let after = self.ramps@;
                    assert forall|a: int| 0 <= a < after.len() implies #[trigger] after[a].name@
                        == before[a].name@ by {}
                    assert(unique_names(after));
                    assert forall|m: Seq<char>| has_name(after, m) == has_name(before, m) by {
                        if has_name(before, m) {
                            let j = choose|j: int| 0 <= j < before.len() && #[trigger] before[j].name@ == m;
                            assert(after[j].name@ == m);
                        }
                        if has_name(after, m) {
                            let j = choose|j: int| 0 <= j < after.len() && #[trigger] after[j].name@ == m;
                            assert(before[j].name@ == m);
                        }
                    }
                    assert forall|m: Seq<char>| has_name(after, m) implies self@[m] == old(self)@.insert(n, colors@)[m] by {
                        let j = choose|j: int| 0 <= j < after.len() && #[trigger] after[j].name@ == m;
                        lemma_index_of(after, m, j);
                        assert(before[j].name@ == m);
                        lemma_index_of(before, m, j);
                        if m == n {
                            assert(j == i);
                        }
                    }
                    assert(self@ =~= old(self)@.insert(n, colors@));
                }
                return;
            }
            i = i + 1;
        }
        let ghost n = name@;
        self.ramps.push(NamedRamp { name, colors });
        proof {
            let after = self.ramps@;
            assert(after[before.len() as int].name@ == n);
            assert forall|m: Seq<char>| #[trigger] has_name(after, m) == (has_name(before, m) || m == n) by {
                if has_name(before, m) {
                    let j = choose|j: int| 0 <= j < before.len() && #[trigger] before[j].name@ == m;
                    assert(after[j].name@ == m);
                }
                if has_name(after, m) && m != n {
                    let j = choose|j: int| 0 <= j < after.len() && #[trigger] after[j].name@ == m;
                    assert(j < before.len());
                    assert(before[j].name@ == m);
                }
            }
            assert forall|a: int, b: int|
                0 <= a < after.len() && 0 <= b < after.len() && #[trigger] after[a].name@
                    == #[trigger] after[b].name@ implies a == b by {
                if a < before.len() && b < before.len() {
                    assert(before[a].name@ == before[b].name@);
                }
            }
            assert forall|m: Seq<char>| has_name(after, m) implies self@[m] == old(self)@.insert(n, colors@)[m] by {
                let j = choose|j: int| 0 <= j < after.len() && #[trigger] after[j].name@ == m;
                lemma_index_of(after, m, j);
                if m != n {
                    assert(before[j].name@ == m);
                    lemma_index_of(before, m, j);
                }
            }
            assert(self@ =~= old(self)@.insert(n, colors@));
        }
    }

    /// The ramp stored under `name`, if any.
    pub fn get(&self, name: &String) -> (r: Option<&Vec<Color>>)
        requires
            self.wf(),
        ensures
            match r {
                Some(c) => self@.contains_key(name@) && c@ == self@[name@],
                None => !self@.contains_key(name@),
            },
    {
        let mut i: usize = 0;
        while i < self.ramps.len()
            invariant
                0 <= i <= self.ramps@.len(),
                self.wf(),
                forall|k: int| 0 <= k < i ==> #[trigger] self.ramps@[k].name@ != name@,
            decreases self.ramps@.len() - i,
        {
            if self.ramps[i].name == *name {
                proof {
                    lemma_index_of(self.ramps@, name@, i as int);
                }
                return Some(&self.ramps[i].colors);
            }
            i = i + 1;
        }
        None
    }
}

/// Reads a colour ramp stored as raw RGB: three bytes per colour, red, green
/// and blue. Returns `None` when the length is not a multiple of three.
pub fn ramp_from_rgb(bytes: &Vec<u8>) -> (r: Option<Vec<Color>>)
    ensures
        match r {
            None => bytes@.len() % 3 != 0,
            Some(c) => rgb_encodes(bytes@, c@),
        },
{
    if bytes.len() % 3 != 0 {
        return None;
    }
    let n: usize = bytes.len() / 3;
    let mut out: Vec<Color> = Vec::new();
    let mut k: usize = 0;
    while k < n
        invariant
            0 <= k <= n,
            n * 3 == bytes.len(),
            out@.len() == k,
            forall|i: int|
                0 <= i < k ==> #[trigger] out@[i] == (Color {
                    r: bytes@[3 * i],
                    g: bytes@[3 * i + 1],
                    b: bytes@[3 * i + 2],
                }),
        decreases n - k,
    {
        out.push(Color { r: bytes[3 * k], g: bytes[3 * k + 1], b: bytes[3 * k + 2] });
        k = k + 1;
    }
    Some(out)
}

} // verus!
